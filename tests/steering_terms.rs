use flockcore::fixed::{ceil_sqrt_wide, clamp_length, div_trunc, scale_to};
use flockcore::grid::Point;
use flockcore::neighbors::NeighborSets;
use flockcore::steering::{
    alignment_accumulate, cohesion_accumulate, separation_accumulate, steer, steering_force, Force,
    Traits, Velocity, SEPARATION_GAIN,
};

fn pt(x: i32, y: i32, z: i32) -> Point {
    Point { x, y, z }
}

fn vel(x: i32, y: i32, z: i32) -> Velocity {
    Velocity { x, y, z }
}

fn traits() -> Traits {
    Traits { max_speed: 4096, max_force: 1024, separation: 1200, alignment: 1500, cohesion: 1000, targeting: 800 }
}

#[test]
fn truncating_division() {
    assert_eq!(div_trunc(7, 2), 3);
    assert_eq!(div_trunc(-7, 2), -3);
    assert_eq!(div_trunc(0, 5), 0);
    assert_eq!(div_trunc(-1, 1000), 0);
}

#[test]
fn wide_square_root_rounds_up() {
    assert_eq!(ceil_sqrt_wide(0), 0);
    assert_eq!(ceil_sqrt_wide(1), 1);
    assert_eq!(ceil_sqrt_wide(10), 4);
    assert_eq!(ceil_sqrt_wide(1 << 80), 1 << 40);
    assert_eq!(ceil_sqrt_wide((1 << 80) + 1), (1 << 40) + 1);
}

#[test]
fn rescaling_and_clamping() {
    assert_eq!(scale_to((3, 4, 0), 10), (6, 8, 0));
    assert_eq!(scale_to((0, 0, 0), 10), (0, 0, 0));
    assert_eq!(scale_to((-160, 0, 0), 64), (-64, 0, 0));
    // clamping never amplifies
    assert_eq!(clamp_length((3, 4, 0), 10), (3, 4, 0));
    assert_eq!(clamp_length((30, 40, 0), 10), (6, 8, 0));
    assert_eq!(clamp_length((0, 0, 0), 0), (0, 0, 0));
}

#[test]
fn steering_toward_a_direction() {
    // desired (4096, 0, 0) from rest, clamped to 1024, times 0.8
    assert_eq!(steer((10, 0, 0), vel(0, 0, 0), 4096, 1024, 800), (819, 0, 0));
    // already at the desired velocity
    assert_eq!(steer((10, 0, 0), vel(4096, 0, 0), 4096, 1024, 1000), (0, 0, 0));
    // zero direction contributes nothing
    assert_eq!(steer((0, 0, 0), vel(5, 5, 5), 4096, 1024, 1000), (0, 0, 0));
    // within the force bound the delta is kept
    assert_eq!(steer((0, 1, 0), vel(0, 4000, 0), 4096, 1024, 1000), (0, 96, 0));
}

#[test]
fn separation_terms_push_away_inversely_with_distance() {
    let points = vec![pt(0, 0, 0), pt(2, 0, 0), pt(0, 0, 0), pt(0, -4, 0)];
    let (sum, count) = separation_accumulate(&points, 0, &vec![1, 2, 3, 9]);
    assert_eq!(count, 2);
    assert_eq!(sum, (-SEPARATION_GAIN / 2, SEPARATION_GAIN / 4, 0));
}

#[test]
fn alignment_and_cohesion_sums() {
    let points = vec![pt(0, 0, 0), pt(2, 0, 0), pt(0, 6, 0)];
    let vels = vec![vel(0, 0, 0), vel(1, 2, 3), vel(-5, 0, 1)];
    assert_eq!(alignment_accumulate(&points, &vels, 0, &vec![1, 2, 0]), ((-4, 2, 4), 2));
    assert_eq!(cohesion_accumulate(&points, 0, &vec![1, 2]), ((2, 6, 0), 2));
}

#[test]
fn total_force_adds_every_behaviour() {
    let points = vec![pt(0, 0, 0), pt(64, 0, 0)];
    let vels = vec![vel(0, 0, 0), vel(0, 0, 0)];
    let sets = NeighborSets { separation: vec![1], alignment: vec![1], cohesion: vec![1] };
    let f = steering_force(&points, &vels, &traits(), 0, &sets, None);
    // separation: -1024 * 1.2; alignment: zero average velocity; cohesion: +1024
    assert_eq!(f, Force { x: -1228 + 1024, y: 0, z: 0 });
    let none = NeighborSets { separation: vec![], alignment: vec![], cohesion: vec![] };
    assert_eq!(steering_force(&points, &vels, &traits(), 0, &none, None), Force { x: 0, y: 0, z: 0 });
    assert_eq!(
        steering_force(&points, &vels, &traits(), 0, &none, Some(pt(0, 0, -640))),
        Force { x: 0, y: 0, z: -819 }
    );
}
