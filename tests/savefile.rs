use std::collections::HashMap;

use backend::filters::ModalFilter;
use backend::ids::{IntersectionID, RoadID};
use backend::kinds::{Direction, FilterKind, Tags};
use backend::network::{Intersection, MapModel, Road};
use backend::savefile::{LoadProblem, LoadedFeature, SavedFeature, SavefileError};
use backend::spatial::RoadCandidate;

/// A cross: intersection 0 in the middle, roads 0..4 running north, east, south and west to
/// intersections 1..5. Road 1 is one-way; road 2 carries a bus route and an existing filter.
fn cross() -> MapModel {
    let mut roads = Vec::new();
    for r in 0..4 {
        let tags = if r == 1 {
            Tags(vec![("oneway".to_string(), "yes".to_string())])
        } else {
            Tags(vec![])
        };
        roads.push(Road {
            id: RoadID(r),
            src_i: IntersectionID(0),
            dst_i: IntersectionID(r + 1),
            way: 100 + r as i64,
            tags,
            speed_mph: 20,
        });
    }
    let mut intersections = vec![Intersection {
        id: IntersectionID(0),
        node: 1,
        roads: vec![RoadID(0), RoadID(1), RoadID(2), RoadID(3)],
        turn_restrictions: Vec::new(),
    }];
    for i in 1..5 {
        intersections.push(Intersection {
            id: IntersectionID(i),
            node: 1 + i as i64,
            roads: vec![RoadID(i - 1)],
            turn_restrictions: Vec::new(),
        });
    }
    let mut bus = HashMap::new();
    bus.insert(102, vec!["Route 7".to_string()]);
    let original = vec![
        None,
        None,
        Some(ModalFilter { kind: FilterKind::NoEntry, percent_along: 500_000 }),
        None,
    ];
    MapModel::new(roads, intersections, vec![1000; 4], bus, original, Some("Area".to_string()))
}

fn blank(kind: &str) -> LoadedFeature {
    LoadedFeature {
        kind: kind.to_string(),
        filter_kind: None,
        direction: None,
        name: None,
        split_offset: None,
        near_roads: Vec::new(),
        line_scores: Vec::new(),
        nearest_intersection: None,
        feature: String::new(),
    }
}

fn at_road(m: &MapModel, r: RoadID, percent_along: u32) -> Vec<RoadCandidate> {
    (0..m.roads.len())
        .map(|i| RoadCandidate {
            road: RoadID(i),
            score: if i == r.0 { 0 } else { 1000 },
            percent_along: if i == r.0 { percent_along } else { 0 },
        })
        .collect()
}

/// Reads a saved feature back as the geometry matching would: onto the same element.
fn read_back(m: &MapModel, f: &SavedFeature) -> LoadedFeature {
    match f {
        SavedFeature::ModalFilter(r, filter) => {
            let mut l = blank("modal_filter");
            l.filter_kind = Some(filter.kind.to_string().to_string());
            l.near_roads = at_road(m, *r, filter.percent_along);
            l
        }
        SavedFeature::DeletedExistingModalFilter(r, p) => {
            let mut l = blank("deleted_existing_modal_filter");
            l.near_roads = at_road(m, *r, *p);
            l
        }
        SavedFeature::Direction(r, d) => {
            let mut l = blank("direction");
            l.direction = Some(d.to_string().to_string());
            l.line_scores = (0..m.roads.len()).map(|i| if i == r.0 { 0 } else { 50 }).collect();
            l
        }
        SavedFeature::Boundary(b) => {
            let mut l = blank("boundary");
            l.name = Some(b.name.clone());
            l.feature = b.feature.clone();
            l
        }
        SavedFeature::StudyAreaBoundary => blank("study_area_boundary"),
        SavedFeature::DiagonalFilter(i, offset) => {
            let mut l = blank("diagonal_filter");
            l.nearest_intersection = Some(*i);
            l.split_offset = Some(*offset as u64);
            l
        }
    }
}

fn groups(m: &MapModel) -> Vec<Option<(RoadID, RoadID)>> {
    m.diagonal_filters.iter().map(|f| f.map(|f| f.group_a)).collect()
}

#[test]
fn save_then_load_reproduces_edits() {
    let mut m = cross();
    m.add_modal_filter(&at_road(&m, RoadID(0), 250_000), FilterKind::NoEntry);
    m.delete_modal_filter(RoadID(2));
    m.toggle_direction(RoadID(3));
    m.rotate_diagonal_filter(IntersectionID(0));
    let saved = m.to_savefile();
    assert_eq!(saved.study_area_name, Some("Area".to_string()));
    assert_eq!(saved.features.len(), 5);

    let mut fresh = cross();
    let loaded: Vec<LoadedFeature> = saved.features.iter().map(|f| read_back(&fresh, f)).collect();
    assert_eq!(fresh.load_savefile(loaded), Ok(()));
    assert_eq!(fresh.modal_filters, m.modal_filters);
    assert_eq!(fresh.directions, m.directions);
    assert_eq!(groups(&fresh), groups(&m));
    assert!(fresh.undo_stack.is_empty());
    assert!(fresh.redo_queue.is_empty());
}

#[test]
fn savefile_holds_only_changes() {
    let m = cross();
    let saved = m.to_savefile();
    assert_eq!(saved.features.len(), 1);
    assert!(matches!(saved.features[0], SavedFeature::StudyAreaBoundary));
}

#[test]
fn savefile_lists_each_kind_of_change() {
    let mut m = cross();
    m.add_modal_filter(&at_road(&m, RoadID(3), 10), FilterKind::WalkCycleOnly);
    m.delete_modal_filter(RoadID(2));
    m.toggle_direction(RoadID(1));
    m.add_diagonal_filter(IntersectionID(0));
    let saved = m.to_savefile();
    assert!(matches!(
        saved.features[0],
        SavedFeature::ModalFilter(RoadID(3), ModalFilter { kind: FilterKind::WalkCycleOnly, percent_along: 10 })
    ));
    assert!(matches!(saved.features[1], SavedFeature::DeletedExistingModalFilter(RoadID(2), 500_000)));
    assert!(matches!(saved.features[2], SavedFeature::Direction(RoadID(1), Direction::Backwards)));
    assert!(matches!(saved.features[3], SavedFeature::StudyAreaBoundary));
    assert!(matches!(saved.features[4], SavedFeature::DiagonalFilter(IntersectionID(0), 0)));
}

#[test]
fn unknown_kind_fails_without_change() {
    let mut m = cross();
    m.toggle_direction(RoadID(0));
    let mut f = blank("direction");
    f.direction = Some("backwards".to_string());
    f.line_scores = vec![9, 0, 9, 9];
    let r = m.load_savefile(vec![f, blank("lamp_post")]);
    assert_eq!(r, Err(SavefileError { index: 1, problem: LoadProblem::UnknownKind }));
    assert_eq!(m.directions[0], Direction::Forwards);
    assert_eq!(m.directions[1], Direction::Forwards);
    assert_eq!(m.undo_stack.len(), 1);
}

#[test]
fn duplicate_boundary_is_refused() {
    let mut m = cross();
    let mut a = blank("boundary");
    a.name = Some("North".to_string());
    let mut b = blank("boundary");
    b.name = Some("North".to_string());
    assert_eq!(
        m.load_savefile(vec![a, b]),
        Err(SavefileError { index: 1, problem: LoadProblem::DuplicateBoundary })
    );
    assert!(m.boundaries.is_empty());
}

#[test]
fn bad_properties_are_refused() {
    let mut m = cross();
    let mut f = blank("modal_filter");
    assert_eq!(
        m.load_savefile(vec![blank("modal_filter")]),
        Err(SavefileError { index: 0, problem: LoadProblem::MissingProperty })
    );
    f.filter_kind = Some("wall".to_string());
    f.near_roads = at_road(&m, RoadID(0), 1);
    assert_eq!(
        m.load_savefile(vec![f]),
        Err(SavefileError { index: 0, problem: LoadProblem::BadFilterKind })
    );
    let mut d = blank("direction");
    d.direction = Some("up".to_string());
    assert_eq!(
        m.load_savefile(vec![d]),
        Err(SavefileError { index: 0, problem: LoadProblem::BadDirection })
    );
    let mut g = blank("diagonal_filter");
    g.nearest_intersection = Some(IntersectionID(2));
    g.split_offset = Some(0);
    assert_eq!(
        m.load_savefile(vec![g]),
        Err(SavefileError { index: 0, problem: LoadProblem::NotFourWay })
    );
    assert_eq!(
        m.load_savefile(vec![blank("deleted_existing_modal_filter")]),
        Err(SavefileError { index: 0, problem: LoadProblem::NoMatchingRoad })
    );
    assert_eq!(
        m.load_savefile(vec![blank("diagonal_filter")]),
        Err(SavefileError { index: 0, problem: LoadProblem::NoMatchingIntersection })
    );
}

#[test]
fn load_resets_and_coerces_bus_roads() {
    let mut m = cross();
    m.toggle_direction(RoadID(0));
    let mut f = blank("modal_filter");
    f.filter_kind = Some("school_street".to_string());
    f.near_roads = at_road(&m, RoadID(2), 42);
    let mut b = blank("boundary");
    b.name = Some("Centre".to_string());
    b.feature = "{}".to_string();
    assert_eq!(m.load_savefile(vec![f, b, blank("study_area_boundary")]), Ok(()));
    assert_eq!(m.directions[0], Direction::BothWays);
    assert_eq!(m.modal_filters[2], Some(ModalFilter { kind: FilterKind::BusGate, percent_along: 42 }));
    assert_eq!(m.boundaries.len(), 1);
    assert_eq!(m.boundaries[0].name, "Centre");
    assert!(m.undo_stack.is_empty());
    m.undo();
    assert_eq!(m.modal_filters[2], Some(ModalFilter { kind: FilterKind::BusGate, percent_along: 42 }));
}
