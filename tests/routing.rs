use std::collections::HashMap;

use backend::ids::{IntersectionID, RoadID};
use backend::kinds::{Direction, FilterKind, Tags};
use backend::network::{Intersection, MapModel, Road};
use backend::routing::{Leg, route_cost};
use backend::spatial::RoadCandidate;

fn after(m: &mut MapModel, a: IntersectionID, b: IntersectionID) -> Option<Vec<Leg>> {
    m.rebuild_router(100);
    m.route(a, b)
}

fn before(m: &mut MapModel, a: IntersectionID, b: IntersectionID) -> Option<Vec<Leg>> {
    m.rebuild_router(100);
    m.route_before(a, b)
}

#[test]
fn routers_rebuild_lazily() {
    let mut m = two_regions(vec![10; 9]);
    assert_eq!(m.rebuild_router(100), (true, true));
    assert_eq!(m.rebuild_router(100), (false, false));
    m.toggle_direction(RoadID(0));
    assert!(m.router_after.is_none());
    assert_eq!(m.rebuild_router(100), (true, false));
    assert_eq!(m.rebuild_router(200), (true, true));
    assert_eq!(m.router_after.as_ref().unwrap().main_road_penalty, 200);
    assert_eq!(m.router_after.as_ref().unwrap().directions[0], Direction::Forwards);
    assert_eq!(m.router_before_with_penalty.as_ref().unwrap().directions[0], Direction::BothWays);
    m.undo();
    assert_eq!(m.rebuild_router(200), (true, false));
}

/// Two squares joined by one bridge: intersections 0-1-2-3 form the west square, 4-5-6-7 the
/// east one, and road 8 joins 1 to 4.
fn two_regions(costs: Vec<u64>) -> MapModel {
    let links = [(0, 1), (1, 2), (2, 3), (3, 0), (4, 5), (5, 6), (6, 7), (7, 4), (1, 4)];
    let mut roads = Vec::new();
    let mut around: Vec<Vec<RoadID>> = vec![Vec::new(); 8];
    for (r, (a, b)) in links.iter().enumerate() {
        roads.push(Road {
            id: RoadID(r),
            src_i: IntersectionID(*a),
            dst_i: IntersectionID(*b),
            way: r as i64,
            tags: Tags(vec![]),
            speed_mph: 30,
        });
        around[*a].push(RoadID(r));
        around[*b].push(RoadID(r));
    }
    let intersections = around
        .into_iter()
        .enumerate()
        .map(|(i, roads)| Intersection {
            id: IntersectionID(i),
            node: i as i64,
            roads,
            turn_restrictions: Vec::new(),
        })
        .collect();
    MapModel::new(roads, intersections, costs, HashMap::new(), vec![None; 9], None)
}

fn ends_at(m: &MapModel, w: &[Leg], from: usize, to: usize) -> bool {
    let mut at = IntersectionID(from);
    for l in w {
        let r = m.get_r(l.road);
        let (s, e) = if l.forwards { (r.src_i, r.dst_i) } else { (r.dst_i, r.src_i) };
        if s != at {
            return false;
        }
        at = e;
    }
    at == IntersectionID(to)
}

#[test]
fn filter_on_only_link_blocks_route_until_undone() {
    let mut m = two_regions(vec![10; 9]);
    let w = after(&mut m, IntersectionID(3), IntersectionID(6)).unwrap();
    assert!(ends_at(&m, &w, 3, 6));
    assert!(w.iter().any(|l| l.road == RoadID(8)));

    m.add_modal_filter(&vec![RoadCandidate { road: RoadID(8), score: 0, percent_along: 500_000 }], FilterKind::NoEntry);
    assert!(after(&mut m, IntersectionID(3), IntersectionID(6)).is_none());
    // The network before edits still has the way through.
    assert!(before(&mut m, IntersectionID(3), IntersectionID(6)).is_some());
    // Within one region nothing changed.
    assert!(after(&mut m, IntersectionID(0), IntersectionID(2)).is_some());

    m.undo();
    let again = after(&mut m, IntersectionID(3), IntersectionID(6)).unwrap();
    assert!(ends_at(&m, &again, 3, 6));
    assert_eq!(again, w);
}

#[test]
fn one_way_roads_are_respected() {
    let mut m = two_regions(vec![1; 9]);
    // Road 8 runs from 1 to 4; make it one-way forwards, then backwards.
    m.toggle_direction(RoadID(8));
    assert_eq!(m.directions[8], Direction::Forwards);
    assert!(after(&mut m, IntersectionID(0), IntersectionID(5)).is_some());
    assert!(after(&mut m, IntersectionID(5), IntersectionID(0)).is_none());
    m.toggle_direction(RoadID(8));
    assert!(after(&mut m, IntersectionID(0), IntersectionID(5)).is_none());
    assert!(after(&mut m, IntersectionID(5), IntersectionID(0)).is_some());
}

#[test]
fn cheaper_way_is_taken() {
    let mut costs = vec![10; 9];
    costs[0] = 50;
    let mut m = two_regions(costs.clone());
    // Going 0 -> 2 round either side of the west square; the side through 3 is cheaper.
    let w = after(&mut m, IntersectionID(0), IntersectionID(2)).unwrap();
    assert_eq!(w, vec![Leg { road: RoadID(3), forwards: false }, Leg { road: RoadID(2), forwards: false }]);
    assert_eq!(route_cost(&costs, &w), Some(20));
}

#[test]
fn same_start_and_end_is_empty_route() {
    let mut m = two_regions(vec![1; 9]);
    let w = after(&mut m, IntersectionID(5), IntersectionID(5)).unwrap();
    assert!(w.is_empty());
}

#[test]
fn route_cost_overflow_is_none() {
    let w = vec![Leg { road: RoadID(0), forwards: true }, Leg { road: RoadID(1), forwards: true }];
    assert_eq!(route_cost(&vec![u64::MAX, 1], &w), None);
    assert_eq!(route_cost(&vec![3, 4], &w), Some(7));
}

/// A cross whose centre (intersection 0) joins roads north, east, south and west.
fn cross() -> MapModel {
    let mut roads = Vec::new();
    for r in 0..4 {
        roads.push(Road {
            id: RoadID(r),
            src_i: IntersectionID(0),
            dst_i: IntersectionID(r + 1),
            way: r as i64,
            tags: Tags(vec![]),
            speed_mph: 20,
        });
    }
    let mut intersections = vec![Intersection {
        id: IntersectionID(0),
        node: 0,
        roads: vec![RoadID(0), RoadID(1), RoadID(2), RoadID(3)],
        turn_restrictions: Vec::new(),
    }];
    for i in 1..5 {
        intersections.push(Intersection {
            id: IntersectionID(i),
            node: i as i64,
            roads: vec![RoadID(i - 1)],
            turn_restrictions: Vec::new(),
        });
    }
    MapModel::new(roads, intersections, vec![1; 4], HashMap::new(), vec![None; 4], None)
}

#[test]
fn diagonal_filter_forces_turns() {
    let mut m = cross();
    // North (1) to south (3) goes straight through the centre.
    assert!(after(&mut m, IntersectionID(1), IntersectionID(3)).is_some());
    m.add_diagonal_filter(IntersectionID(0));
    // Groups {N, E} and {S, W}: straight on is blocked, turning within a group is not.
    assert!(after(&mut m, IntersectionID(1), IntersectionID(3)).is_none());
    assert!(after(&mut m, IntersectionID(1), IntersectionID(2)).is_some());
    assert!(after(&mut m, IntersectionID(3), IntersectionID(4)).is_some());
    m.rotate_diagonal_filter(IntersectionID(0));
    // Groups {E, S} and {W, N}.
    assert!(after(&mut m, IntersectionID(1), IntersectionID(2)).is_none());
    assert!(after(&mut m, IntersectionID(1), IntersectionID(4)).is_some());
}

#[test]
fn main_roads_cost_more_with_penalty() {
    let mut roads = Vec::new();
    let highways = ["primary", "residential", "trunk"];
    for (r, h) in highways.iter().enumerate() {
        roads.push(Road {
            id: RoadID(r),
            src_i: IntersectionID(r),
            dst_i: IntersectionID(r + 1),
            way: r as i64,
            tags: Tags(vec![("highway".to_string(), h.to_string())]),
            speed_mph: 30,
        });
    }
    let intersections = (0..4)
        .map(|i| Intersection {
            id: IntersectionID(i),
            node: i as i64,
            roads: Vec::new(),
            turn_restrictions: Vec::new(),
        })
        .collect();
    let m = MapModel::new(roads, intersections, vec![1000, 1000, 7], HashMap::new(), vec![None; 3], None);
    assert!(m.is_main_road(RoadID(0)));
    assert!(!m.is_main_road(RoadID(1)));
    assert_eq!(m.route_costs(250), vec![2500, 1000, 17]);
    assert_eq!(m.route_costs(100), vec![1000, 1000, 7]);
    assert_eq!(m.route_costs(0), vec![0, 1000, 0]);
}

#[test]
fn unedited_network_routes_agree() {
    let mut m = two_regions(vec![10; 9]);
    m.rebuild_router(150);
    let (before, after) = m.compare_routes(IntersectionID(0), IntersectionID(6));
    assert!(before.is_some());
    assert_eq!(before, after);
    m.add_modal_filter(&vec![RoadCandidate { road: RoadID(8), score: 0, percent_along: 1 }], FilterKind::NoEntry);
    m.rebuild_router(150);
    let (before, after) = m.compare_routes(IntersectionID(0), IntersectionID(6));
    assert!(before.is_some());
    assert!(after.is_none());
    m.undo();
    m.rebuild_router(150);
    let (again_before, again_after) = m.compare_routes(IntersectionID(0), IntersectionID(6));
    assert_eq!(again_before, before);
    assert_eq!(again_after, before);
}
