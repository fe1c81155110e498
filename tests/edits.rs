use std::collections::HashMap;

use backend::edits::{Command, Edit};
use backend::filters::{DiagonalFilter, ModalFilter};
use backend::ids::{IntersectionID, RoadID};
use backend::kinds::{Direction, FilterKind, Tags};
use backend::network::{Intersection, MapModel, Road};
use backend::spatial::RoadCandidate;

/// A cross: intersection 0 in the middle, roads 0..4 running north, east, south and west to
/// intersections 1..5. Road 1 is one-way; road 2 carries a bus route and an existing filter.
fn cross() -> MapModel {
    let mut roads = Vec::new();
    for r in 0..4 {
        let tags = if r == 1 {
            Tags(vec![("oneway".to_string(), "yes".to_string())])
        } else {
            Tags(vec![])
        };
        roads.push(Road {
            id: RoadID(r),
            src_i: IntersectionID(0),
            dst_i: IntersectionID(r + 1),
            way: 100 + r as i64,
            tags,
            speed_mph: 20,
        });
    }
    let mut intersections = vec![Intersection {
        id: IntersectionID(0),
        node: 1,
        roads: vec![RoadID(0), RoadID(1), RoadID(2), RoadID(3)],
        turn_restrictions: Vec::new(),
    }];
    for i in 1..5 {
        intersections.push(Intersection {
            id: IntersectionID(i),
            node: 1 + i as i64,
            roads: vec![RoadID(i - 1)],
            turn_restrictions: Vec::new(),
        });
    }
    let mut bus = HashMap::new();
    bus.insert(102, vec!["Route 7".to_string()]);
    let original = vec![
        None,
        None,
        Some(ModalFilter { kind: FilterKind::NoEntry, percent_along: 500_000 }),
        None,
    ];
    MapModel::new(roads, intersections, vec![1000; 4], bus, original, Some("Area".to_string()))
}

fn near(road: usize, score: u64, percent_along: u32) -> RoadCandidate {
    RoadCandidate { road: RoadID(road), score, percent_along }
}

fn snapshot(m: &MapModel) -> (Vec<Option<ModalFilter>>, Vec<Option<(RoadID, RoadID)>>, Vec<Direction>) {
    (
        m.modal_filters.clone(),
        m.diagonal_filters.iter().map(|f| f.map(|f| f.group_a)).collect(),
        m.directions.clone(),
    )
}

#[test]
fn new_network_starts_from_tags() {
    let m = cross();
    assert_eq!(
        m.directions,
        vec![Direction::BothWays, Direction::Forwards, Direction::BothWays, Direction::BothWays]
    );
    assert_eq!(m.modal_filters, m.original_modal_filters);
    assert!(m.undo_stack.is_empty() && m.redo_queue.is_empty());
    assert_eq!(m.original_directions(), m.directions);
}

#[test]
fn lookups() {
    let m = cross();
    assert_eq!(m.get_r(RoadID(2)).dst_i, IntersectionID(3));
    assert_eq!(m.get_i(IntersectionID(0)).roads.len(), 4);
    assert_eq!(m.find_edge(IntersectionID(0), IntersectionID(4)).id, RoadID(3));
    assert_eq!(m.find_edge(IntersectionID(2), IntersectionID(0)).id, RoadID(1));
    assert_eq!(m.get_bus_routes_on_road(RoadID(2)), Some(&vec!["Route 7".to_string()]));
    assert_eq!(m.get_bus_routes_on_road(RoadID(0)), None);
}

#[test]
fn intersection_roads_in_order() {
    let m = cross();
    let roads = m.get_i(IntersectionID(0)).roads_iter(&m);
    let ids: Vec<RoadID> = roads.iter().map(|r| r.id).collect();
    assert_eq!(ids, vec![RoadID(0), RoadID(1), RoadID(2), RoadID(3)]);
    assert_eq!(m.get_i(IntersectionID(3)).roads_iter(&m)[0].dst_i, IntersectionID(3));
}

#[test]
fn undo_everything_restores_baseline() {
    let mut m = cross();
    let baseline = snapshot(&m);
    m.add_modal_filter(&vec![near(0, 500, 250_000), near(3, 100, 750_000)], FilterKind::NoEntry);
    m.toggle_direction(RoadID(1));
    m.toggle_direction(RoadID(1));
    m.add_diagonal_filter(IntersectionID(0));
    m.rotate_diagonal_filter(IntersectionID(0));
    m.delete_modal_filter(RoadID(2));
    m.add_many_modal_filters(&vec![(RoadID(0), 1), (RoadID(3), 2)], FilterKind::SchoolStreet);
    m.delete_diagonal_filter(IntersectionID(0));
    assert_ne!(snapshot(&m), baseline);
    assert_eq!(m.undo_stack.len(), 8);
    while !m.undo_stack.is_empty() {
        m.undo();
    }
    assert_eq!(snapshot(&m), baseline);
    assert_eq!(m.redo_queue.len(), 8);
}

#[test]
fn undo_on_empty_stack_does_nothing() {
    let mut m = cross();
    let before = snapshot(&m);
    m.undo();
    assert_eq!(snapshot(&m), before);
    assert!(m.redo_queue.is_empty());
}

#[test]
fn redo_after_undo_restores_edit() {
    let mut m = cross();
    m.toggle_direction(RoadID(0));
    let edited = snapshot(&m);
    assert_eq!(m.directions[0], Direction::Forwards);
    m.undo();
    assert_eq!(m.directions[0], Direction::BothWays);
    m.redo();
    assert_eq!(snapshot(&m), edited);
    assert_eq!(m.undo_stack.len(), 1);
    assert!(m.redo_queue.is_empty());
}

#[test]
fn new_edit_clears_redo_queue() {
    let mut m = cross();
    m.toggle_direction(RoadID(0));
    m.undo();
    assert_eq!(m.redo_queue.len(), 1);
    m.delete_modal_filter(RoadID(2));
    assert!(m.redo_queue.is_empty());
    let now = snapshot(&m);
    m.redo();
    assert_eq!(snapshot(&m), now);
}

#[test]
fn redo_takes_oldest_first() {
    let mut m = cross();
    m.toggle_direction(RoadID(0));
    m.toggle_direction(RoadID(3));
    m.undo();
    m.undo();
    // The queue holds the redo of road 3 first.
    match &m.redo_queue[0] {
        Command::Single(Edit::SetDirection(r, d)) => {
            assert_eq!(*r, RoadID(3));
            assert_eq!(*d, Direction::Forwards);
        }
        _ => panic!("expected a direction edit"),
    }
    m.redo();
    assert_eq!(m.directions[3], Direction::Forwards);
    assert_eq!(m.directions[0], Direction::BothWays);
}

#[test]
fn batch_undo_restores_and_keeps_order() {
    let mut m = cross();
    let baseline = snapshot(&m);
    m.add_many_modal_filters(
        &vec![(RoadID(3), 100), (RoadID(0), 200), (RoadID(2), 300)],
        FilterKind::WalkCycleOnly,
    );
    assert_eq!(
        m.modal_filters[0],
        Some(ModalFilter { kind: FilterKind::WalkCycleOnly, percent_along: 200 })
    );
    // The inverses come in the order the edits were applied.
    match m.undo_stack.last().unwrap() {
        Command::Multiple(inverses) => {
            let roads: Vec<RoadID> = inverses
                .iter()
                .map(|e| match e {
                    Edit::SetModalFilter(r, _) => *r,
                    _ => panic!("expected filter edits"),
                })
                .collect();
            assert_eq!(roads, vec![RoadID(3), RoadID(0), RoadID(2)]);
        }
        _ => panic!("expected a batch"),
    }
    m.undo();
    assert_eq!(snapshot(&m), baseline);
}

#[test]
fn nearest_candidate_gets_the_filter() {
    let mut m = cross();
    m.add_modal_filter(&vec![near(0, 900, 1), near(3, 120, 2), near(1, 120, 3)], FilterKind::NoEntry);
    assert_eq!(m.modal_filters[3], Some(ModalFilter { kind: FilterKind::NoEntry, percent_along: 2 }));
    assert_eq!(m.modal_filters[1], None);
    assert!(m.router_after.is_none());
}

#[test]
fn bus_road_filter_becomes_bus_gate() {
    let mut m = cross();
    m.add_modal_filter(&vec![near(2, 10, 400_000)], FilterKind::NoEntry);
    assert_eq!(
        m.modal_filters[2],
        Some(ModalFilter { kind: FilterKind::BusGate, percent_along: 400_000 })
    );
}

#[test]
fn bus_road_batch_filter_becomes_bus_gate() {
    let mut m = cross();
    m.add_many_modal_filters(&vec![(RoadID(0), 7), (RoadID(2), 8)], FilterKind::SchoolStreet);
    assert_eq!(
        m.modal_filters[0],
        Some(ModalFilter { kind: FilterKind::SchoolStreet, percent_along: 7 })
    );
    assert_eq!(m.modal_filters[2], Some(ModalFilter { kind: FilterKind::BusGate, percent_along: 8 }));
}

#[test]
fn diagonal_filters_add_rotate_delete() {
    let mut m = cross();
    m.add_diagonal_filter(IntersectionID(0));
    let f: DiagonalFilter = m.diagonal_filters[0].unwrap();
    assert_eq!(f.group_a, (RoadID(0), RoadID(1)));
    m.rotate_diagonal_filter(IntersectionID(0));
    assert_eq!(m.diagonal_filters[0].unwrap().group_a, (RoadID(1), RoadID(2)));
    m.delete_diagonal_filter(IntersectionID(0));
    assert!(m.diagonal_filters[0].is_none());
    m.undo();
    assert_eq!(m.diagonal_filters[0].unwrap().group_b, (RoadID(3), RoadID(0)));
}

#[test]
fn toggle_direction_cycles() {
    let mut m = cross();
    m.toggle_direction(RoadID(1));
    assert_eq!(m.directions[1], Direction::Backwards);
    m.toggle_direction(RoadID(1));
    assert_eq!(m.directions[1], Direction::BothWays);
    m.toggle_direction(RoadID(1));
    assert_eq!(m.directions[1], Direction::Forwards);
}

#[test]
fn most_similar_line_takes_smallest_score() {
    let m = cross();
    assert_eq!(m.most_similar_linestring(&vec![50, 7, 7, 90]), RoadID(1));
}

#[test]
fn adopted_filters_become_baseline() {
    let mut m = cross();
    m.add_modal_filter(&vec![near(0, 1, 300)], FilterKind::NoEntry);
    m.adopt_filters_as_original();
    assert_eq!(m.original_modal_filters, m.modal_filters);
    assert!(m.undo_stack.is_empty());
    let before = snapshot(&m);
    m.undo();
    assert_eq!(snapshot(&m), before);
    assert_eq!(m.to_savefile().features.len(), 1);
}
