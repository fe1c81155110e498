use backend::filters::DiagonalFilter;
use backend::ids::RoadID;

const N: RoadID = RoadID(10);
const E: RoadID = RoadID(11);
const S: RoadID = RoadID(12);
const W: RoadID = RoadID(13);

#[test]
fn rotation_zero_groups_north_east() {
    let f = DiagonalFilter::new(&vec![N, E, S, W], 0);
    assert_eq!(f.group_a, (N, E));
    assert_eq!(f.group_b, (S, W));
}

#[test]
fn rotation_one_groups_east_south() {
    let f = DiagonalFilter::new(&vec![N, E, S, W], 1);
    assert_eq!(f.group_a, (E, S));
    assert_eq!(f.group_b, (W, N));
}

#[test]
fn large_offsets_wrap_around() {
    let f = DiagonalFilter::new(&vec![N, E, S, W], 6);
    assert_eq!(f.group_a, (S, W));
    assert_eq!(f.group_b, (N, E));
}

#[test]
fn movements_follow_groups_both_ways() {
    let f = DiagonalFilter::new(&vec![N, E, S, W], 0);
    let all = [N, E, S, W];
    for a in all {
        for b in all {
            assert_eq!(f.allows_movement(&(a, b)), f.allows_movement(&(b, a)));
        }
    }
    assert!(f.allows_movement(&(N, E)));
    assert!(f.allows_movement(&(S, W)));
    assert!(!f.allows_movement(&(N, S)));
    assert!(!f.allows_movement(&(E, W)));
    assert!(!f.allows_movement(&(N, W)));
}
