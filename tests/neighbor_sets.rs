use flockcore::config::ConfigError;
use flockcore::grid::Point;
use flockcore::neighbors::{ceil_sqrt, distance_sq, select_neighbors, FlockPolicy};

fn pt(x: i32, y: i32, z: i32) -> Point {
    Point { x, y, z }
}

#[test]
fn ceil_sqrt_values() {
    assert_eq!(ceil_sqrt(0), 0);
    assert_eq!(ceil_sqrt(1), 1);
    assert_eq!(ceil_sqrt(2), 2);
    assert_eq!(ceil_sqrt(4), 2);
    assert_eq!(ceil_sqrt(5), 3);
    assert_eq!(ceil_sqrt(625), 25);
    assert_eq!(ceil_sqrt(626), 26);
    assert_eq!(ceil_sqrt(2500), 50);
    assert_eq!(ceil_sqrt(u32::MAX), 65536);
}

#[test]
fn zero_threshold_is_refused() {
    assert!(matches!(FlockPolicy::new(0, 1, 1, None), Err(ConfigError::ZeroThreshold)));
    assert!(matches!(FlockPolicy::new(1, 0, 1, None), Err(ConfigError::ZeroThreshold)));
    assert!(matches!(FlockPolicy::new(1, 1, 0, None), Err(ConfigError::ZeroThreshold)));
    let p = FlockPolicy::new(625, 2500, 900, Some(pt(1, 2, 3))).unwrap();
    assert_eq!(p.separation(), 625);
    assert_eq!(p.alignment(), 2500);
    assert_eq!(p.cohesion(), 900);
    assert_eq!(p.target(), Some(pt(1, 2, 3)));
}

#[test]
fn interaction_radius_covers_the_largest_threshold() {
    assert_eq!(FlockPolicy::new(625, 2500, 2500, None).unwrap().interaction_radius(), 50);
    assert_eq!(FlockPolicy::new(626, 100, 9, None).unwrap().interaction_radius(), 26);
    assert_eq!(FlockPolicy::new(1, 1, 1, None).unwrap().interaction_radius(), 1);
}

#[test]
fn distance_sq_is_exact_at_the_extremes() {
    assert_eq!(distance_sq(&pt(1, 2, 3), &pt(4, 6, 3)), 25);
    let far = distance_sq(&pt(i32::MIN, i32::MIN, i32::MIN), &pt(i32::MAX, i32::MAX, i32::MAX));
    let d = (u32::MAX as i128) * (u32::MAX as i128);
    assert_eq!(far, 3 * d);
}

#[test]
fn selection_skips_self_coincident_and_far_agents() {
    let points = vec![pt(0, 0, 0), pt(0, 0, 0), pt(3, 0, 0), pt(10, 0, 0), pt(0, 30, 0)];
    let policy = FlockPolicy::new(25, 101, 900, None).unwrap();
    let cands = vec![0, 1, 2, 3, 4];
    let sets = select_neighbors(&points, 0, &cands, &policy);
    assert_eq!(sets.separation, vec![2]);
    assert_eq!(sets.alignment, vec![2, 3]);
    assert_eq!(sets.cohesion, vec![2, 3]);
}

#[test]
fn selection_thresholds_are_strict() {
    let points = vec![pt(0, 0, 0), pt(5, 0, 0)];
    let policy = FlockPolicy::new(25, 26, 25, None).unwrap();
    let sets = select_neighbors(&points, 0, &vec![1], &policy);
    assert!(sets.separation.is_empty());
    assert_eq!(sets.alignment, vec![1]);
    assert!(sets.cohesion.is_empty());
}

#[test]
fn selection_ignores_out_of_range_candidates() {
    let points = vec![pt(0, 0, 0), pt(1, 0, 0)];
    let policy = FlockPolicy::new(100, 100, 100, None).unwrap();
    let sets = select_neighbors(&points, 0, &vec![7, 1], &policy);
    assert_eq!(sets.separation, vec![1]);
}
