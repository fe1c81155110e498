use backend::ids::RoadID;
use backend::impact::{OriginRoutes, Ratio, RouteSummary, impact_to_one_destination};

fn route(distance: u64, time: u64) -> Option<RouteSummary> {
    Some(RouteSummary { distance, time })
}

#[test]
fn detour_ratio_is_reported() {
    let origins = vec![
        OriginRoutes { road: RoadID(0), before: route(1000, 60_000), after: route(1000, 60_000) },
        OriginRoutes { road: RoadID(1), before: route(2000, 40_000), after: route(6000, 120_000) },
        OriginRoutes { road: RoadID(2), before: route(500, 10_000), after: route(700, 15_000) },
    ];
    let impact = impact_to_one_destination(&origins);
    let h = impact.highest_time_ratio;
    assert_eq!(h, Ratio { num: 120_000, den: 40_000 });
    assert!(h.num >= 3 * h.den);
    assert_eq!(impact.rows.len(), 3);
    assert_eq!(impact.rows[1].road, RoadID(1));
    assert_eq!(impact.rows[1].before.time, 40_000);
    assert_eq!(impact.rows[1].after.time, 120_000);
}

#[test]
fn origins_missing_a_route_are_left_out() {
    let origins = vec![
        OriginRoutes { road: RoadID(0), before: route(1000, 60_000), after: None },
        OriginRoutes { road: RoadID(1), before: None, after: route(10, 1) },
        OriginRoutes { road: RoadID(2), before: route(500, 10_000), after: route(400, 9_000) },
    ];
    let impact = impact_to_one_destination(&origins);
    assert_eq!(impact.rows.len(), 1);
    assert_eq!(impact.rows[0].road, RoadID(2));
    assert_eq!(impact.highest_time_ratio, Ratio { num: 1, den: 1 });
}

#[test]
fn no_origins_ratio_one() {
    let impact = impact_to_one_destination(&vec![]);
    assert!(impact.rows.is_empty());
    assert_eq!(impact.highest_time_ratio, Ratio { num: 1, den: 1 });
}
