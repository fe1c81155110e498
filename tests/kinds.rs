use backend::kinds::{Direction, FilterKind, ParseError, Tags, is_barrier, is_road};

fn tags(pairs: &[(&str, &str)]) -> Tags {
    Tags(pairs.iter().map(|(k, v)| (k.to_string(), v.to_string())).collect())
}

#[test]
fn filter_kind_names_round_trip() {
    for k in [
        FilterKind::WalkCycleOnly,
        FilterKind::NoEntry,
        FilterKind::BusGate,
        FilterKind::SchoolStreet,
    ] {
        assert_eq!(FilterKind::from_string(k.to_string()), Ok(k));
    }
    assert_eq!(FilterKind::WalkCycleOnly.to_string(), "walk_cycle_only");
    assert_eq!(FilterKind::SchoolStreet.to_string(), "school_street");
}

#[test]
fn unknown_filter_kind_is_refused() {
    assert_eq!(
        FilterKind::from_string("bollard"),
        Err(ParseError::InvalidFilterKind("bollard".to_string()))
    );
    assert!(FilterKind::from_string("").is_err());
}

#[test]
fn direction_names_round_trip() {
    assert_eq!(Direction::Forwards.to_string(), "forwards");
    assert_eq!(Direction::Backwards.to_string(), "backwards");
    assert_eq!(Direction::BothWays.to_string(), "both");
    assert_eq!(Direction::from_string("both"), Ok(Direction::BothWays));
    assert_eq!(
        Direction::from_string("sideways"),
        Err(ParseError::InvalidDirection("sideways".to_string()))
    );
}

#[test]
fn direction_from_tags() {
    assert_eq!(Direction::from_osm(&tags(&[("oneway", "yes")])), Direction::Forwards);
    assert_eq!(Direction::from_osm(&tags(&[("oneway", "-1")])), Direction::Backwards);
    assert_eq!(Direction::from_osm(&tags(&[("highway", "motorway")])), Direction::Forwards);
    assert_eq!(Direction::from_osm(&tags(&[("junction", "roundabout")])), Direction::Forwards);
    assert_eq!(Direction::from_osm(&tags(&[("highway", "residential")])), Direction::BothWays);
    assert_eq!(Direction::from_osm(&tags(&[])), Direction::BothWays);
    // The first entry with a key is the one that counts.
    assert_eq!(
        Direction::from_osm(&tags(&[("oneway", "no"), ("oneway", "yes")])),
        Direction::BothWays
    );
}

#[test]
fn direction_toggles_in_a_cycle() {
    assert_eq!(Direction::Forwards.toggled(), Direction::Backwards);
    assert_eq!(Direction::Backwards.toggled(), Direction::BothWays);
    assert_eq!(Direction::BothWays.toggled(), Direction::Forwards);
}

#[test]
fn tags_lookup() {
    let t = tags(&[("highway", "primary"), ("name", "High Street")]);
    assert!(t.is("highway", "primary"));
    assert!(!t.is("highway", "secondary"));
    assert!(!t.is("oneway", "yes"));
}

#[test]
fn roads_are_driveable_highways() {
    assert!(is_road(&tags(&[("highway", "residential")])));
    assert!(is_road(&tags(&[("highway", "primary"), ("name", "A4")])));
    assert!(!is_road(&tags(&[("name", "Field")])));
    assert!(!is_road(&tags(&[("highway", "footway")])));
    assert!(!is_road(&tags(&[("highway", "cycleway")])));
    assert!(!is_road(&tags(&[("highway", "proposed")])));
    assert!(!is_road(&tags(&[("highway", "pedestrian"), ("area", "yes")])));
}

#[test]
fn barriers_other_than_gates() {
    assert!(is_barrier(&tags(&[("barrier", "bollard")])));
    assert!(!is_barrier(&tags(&[("barrier", "gate")])));
    assert!(!is_barrier(&tags(&[("amenity", "bench")])));
    assert!(tags(&[("barrier", "gate")]).has("barrier"));
}
