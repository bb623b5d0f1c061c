use flockcore::config::ConfigError;
use flockcore::dispatch::chunk_bounds;
use flockcore::neighbors::{distance_sq, NeighborSets};
use flockcore::steering::steering_force;
use flockcore::engine::FlockEngine;
use flockcore::grid::Point;
use flockcore::neighbors::FlockPolicy;
use flockcore::steering::{Force, Traits, Velocity};
use flockcore::store::Agent;

/// Position units per world unit, velocity units per world unit per tick.
const P: i32 = 64;
const V: i32 = 1024;

fn default_traits() -> Traits {
    Traits {
        max_speed: 4 * V as u32,
        max_force: V as u32,
        separation: 1200,
        alignment: 1500,
        cohesion: 1000,
        targeting: 800,
    }
}

fn still(x: i32, y: i32, z: i32) -> Agent<Velocity, Traits> {
    Agent { position: Point { x, y, z }, velocity: Velocity { x: 0, y: 0, z: 0 }, traits: default_traits() }
}

fn default_policy(target: Option<Point>) -> FlockPolicy {
    let p2 = (P * P) as u32;
    FlockPolicy::new(625 * p2, 2500 * p2, 2500 * p2, target).unwrap()
}

const ZERO: Force = Force { x: 0, y: 0, z: 0 };

fn len2(f: &Force) -> i128 {
    (f.x as i128).pow(2) + (f.y as i128).pow(2) + (f.z as i128).pow(2)
}

#[test]
fn engine_refuses_bad_configuration() {
    assert!(matches!(FlockEngine::new(0, 50), Err(ConfigError::ZeroCapacity)));
    assert!(matches!(FlockEngine::new(4, 0), Err(ConfigError::ZeroCellSize)));
}

#[test]
fn lone_agent_has_no_neighbours_and_no_force() {
    let mut e = FlockEngine::new(4, 50 * P as u32).unwrap();
    let forces = e.tick(&vec![still(0, 0, 0), still(1000 * P, 0, 0)], &default_policy(None), false);
    assert_eq!(forces, vec![ZERO, ZERO]);
    let sets = e.neighbors(&default_policy(None), 0);
    assert!(sets.separation.is_empty() && sets.alignment.is_empty() && sets.cohesion.is_empty());
}

#[test]
fn single_agent_seeks_its_target() {
    let mut e = FlockEngine::new(4, 50 * P as u32).unwrap();
    let target = Some(Point { x: 10 * P, y: 0, z: 0 });
    let forces = e.tick(&vec![still(0, 0, 0)], &default_policy(target), false);
    // desired (4, 0, 0), delta clamped to 1, weighted by 0.8: 819 / 1024 is 0.7998
    assert_eq!(forces, vec![Force { x: 819, y: 0, z: 0 }]);
}

#[test]
fn two_agents_one_unit_apart_push_apart() {
    let mut e = FlockEngine::new(4, 50 * P as u32).unwrap();
    let forces = e.tick(&vec![still(0, 0, 0), still(P, 0, 0)], &default_policy(None), false);
    assert_eq!(e.neighbors(&default_policy(None), 0).separation, vec![1]);
    assert_eq!(e.neighbors(&default_policy(None), 1).separation, vec![0]);
    assert!(forces[0].x < 0);
    assert!(forces[1].x > 0);
    assert_eq!(forces[0].y, 0);
    assert_eq!(forces[0].x, -forces[1].x);
}

#[test]
fn coincident_agents_do_not_interact() {
    let mut e = FlockEngine::new(4, 50 * P as u32).unwrap();
    let forces = e.tick(&vec![still(5, 5, 5), still(5, 5, 5)], &default_policy(None), false);
    assert_eq!(forces, vec![ZERO, ZERO]);
    e.load_boids(&vec![still(5, 5, 5), still(5, 5, 5), still(9, 5, 5)]);
    let sets = e.neighbors(&default_policy(None), 0);
    assert_eq!(sets.separation, vec![2]);
    assert_eq!(sets.cohesion, vec![2]);
}

#[test]
fn neighbours_across_cell_boundaries() {
    let mut e = FlockEngine::new(8, 10).unwrap();
    e.load_boids(&vec![still(9, 9, 9), still(10, 10, 10), still(-20, 9, 9), still(9, 9, 40)]);
    let policy = FlockPolicy::new(4, 900, 2000, None).unwrap();
    let mut sets = e.neighbors(&policy, 0);
    sets.alignment.sort();
    sets.cohesion.sort();
    assert_eq!(sets.separation, vec![1]);
    assert_eq!(sets.alignment, vec![1, 2]);
    assert_eq!(sets.cohesion, vec![1, 2, 3]);
}

#[test]
fn planar_neighbours_stay_in_the_layer() {
    let mut e = FlockEngine::new(8, 10).unwrap();
    e.load_boids(&vec![still(0, 0, 0), still(3, 4, 0), still(0, 0, 3), still(0, 0, 12)]);
    let policy = FlockPolicy::new(200, 200, 200, None).unwrap();
    let mut sets = e.neighbors_2d(&policy, 0);
    sets.separation.sort();
    assert_eq!(sets.separation, vec![1, 2]);
    assert_ne!(e.force_of(&policy, 0, true), ZERO);
}

#[test]
fn tick_truncates_to_capacity() {
    let mut e = FlockEngine::new(2, 50).unwrap();
    let forces = e.tick(&vec![still(0, 0, 0), still(1, 0, 0), still(2, 0, 0)], &default_policy(None), false);
    assert_eq!(forces.len(), 2);
    assert_eq!(e.count(), 2);
    assert_eq!(e.agents().count(), 2);
    assert_eq!(e.index().cell_size(), 50);
    for n in 0..=2 {
        let snapshot: Vec<_> = (0..n).map(|i| still(i * 100, 0, 0)).collect();
        assert_eq!(e.tick(&snapshot, &default_policy(None), false).len(), n as usize);
    }
}

#[test]
fn set_force_round_trips() {
    let mut e = FlockEngine::new(2, 50).unwrap();
    e.load_boids(&vec![still(0, 0, 0), still(1, 0, 0)]);
    e.set_force(1, Force { x: 1, y: 2, z: 3 });
    assert_eq!(e.store_forces(), vec![ZERO, Force { x: 1, y: 2, z: 3 }]);
}

#[test]
fn every_contribution_respects_the_force_bound() {
    // a dense cluster with fast, opposed velocities and a far target
    let mut snapshot = Vec::new();
    for k in 0..40 {
        let mut a = still((k % 7) * 9, (k % 5) * 11, (k % 3) * 13);
        a.velocity = Velocity { x: if k % 2 == 0 { 9000 } else { -9000 }, y: 3000 * (k % 3 - 1), z: 0 };
        snapshot.push(a);
    }
    let traits = default_traits();
    let target = Some(Point { x: 100_000, y: -5_000, z: 70 });
    let mut e = FlockEngine::new(64, 50 * P as u32).unwrap();
    let forces = e.tick(&snapshot, &default_policy(target), false);
    // four behaviours, each at most max_force * weight / 1000 long
    let bound = (traits.max_force as i128)
        * (traits.separation + traits.alignment + traits.cohesion + traits.targeting) as i128
        / 1000;
    for f in &forces {
        assert!(len2(f) <= bound * bound + 1);
    }
}

#[test]
fn repeated_ticks_agree() {
    let snapshot: Vec<_> = (0..30).map(|k| still((k * 37) % 400, (k * 91) % 300, (k * 13) % 200)).collect();
    let mut e = FlockEngine::new(64, 40).unwrap();
    let policy = FlockPolicy::new(900, 4000, 6000, Some(Point { x: 0, y: 0, z: 0 })).unwrap();
    let first = e.tick(&snapshot, &policy, false);
    let second = e.tick(&snapshot, &policy, false);
    assert_eq!(first, second);
}

#[test]
fn separation_alone_gives_its_weight() {
    let mut e = FlockEngine::new(100, 50 * P as u32).unwrap();
    let p2 = (P * P) as u32;
    let policy = FlockPolicy::new(625 * p2, p2 / 4, p2 / 4, None).unwrap();
    let forces = e.tick(&vec![still(0, 0, 0), still(P, 0, 0)], &policy, false);
    // desired speed 4 away from the other, clamped to 1, times 1.2
    assert_eq!(forces, vec![Force { x: -1228, y: 0, z: 0 }, Force { x: 1228, y: 0, z: 0 }]);
}

fn brute_force(snapshot: &[Agent<Velocity, Traits>], policy: &FlockPolicy, target: Option<Point>) -> Vec<Force> {
    let points: Vec<Point> = snapshot.iter().map(|a| a.position).collect();
    let vels: Vec<Velocity> = snapshot.iter().map(|a| a.velocity).collect();
    (0..snapshot.len())
        .map(|i| {
            let within = |t: u32| -> Vec<usize> {
                (0..snapshot.len())
                    .filter(|&j| {
                        let d = distance_sq(&points[i], &points[j]);
                        j != i && d >= 1 && d < t as i128
                    })
                    .collect()
            };
            let sets = NeighborSets {
                separation: within(policy.separation()),
                alignment: within(policy.alignment()),
                cohesion: within(policy.cohesion()),
            };
            steering_force(&points, &vels, &snapshot[i].traits, i, &sets, target)
        })
        .collect()
}

fn scattered(n: i32, seed: i32) -> Vec<Agent<Velocity, Traits>> {
    (0..n)
        .map(|k| {
            let mut a = still((k * 37 + seed) % 500, (k * 91 + 3 * seed) % 400, (k * 13) % 300);
            a.velocity = Velocity { x: (k * 17) % 900 - 450, y: (k * 29) % 700 - 350, z: (k % 5) * 40 };
            a
        })
        .collect()
}

#[test]
fn forces_match_a_brute_force_computation() {
    let snapshot = scattered(60, 5);
    let target = Some(Point { x: 200, y: 100, z: -50 });
    let policy = FlockPolicy::new(900, 4000, 6000, target).unwrap();
    let mut e = FlockEngine::new(64, 40).unwrap();
    assert_eq!(e.tick(&snapshot, &policy, false), brute_force(&snapshot, &policy, target));
}

#[test]
fn reused_engine_agrees_with_a_fresh_one() {
    let policy = FlockPolicy::new(900, 4000, 6000, None).unwrap();
    let mut reused = FlockEngine::new(64, 40).unwrap();
    reused.tick(&scattered(64, 1), &policy, false);
    reused.tick(&scattered(10, 9), &policy, true);
    let snapshot = scattered(50, 4);
    let mut fresh = FlockEngine::new(64, 40).unwrap();
    assert_eq!(reused.tick(&snapshot, &policy, false), fresh.tick(&snapshot, &policy, false));
}

#[test]
fn chunked_computation_matches_the_whole_tick() {
    let snapshot = scattered(57, 2);
    let policy = FlockPolicy::new(900, 4000, 6000, None).unwrap();
    let mut e = FlockEngine::new(64, 40).unwrap();
    let whole = e.tick(&snapshot, &policy, false);
    for size in [1usize, 5, 16, 57, 100] {
        let mut out = vec![ZERO; e.count()];
        for (start, end) in chunk_bounds(e.count(), size).into_iter().rev() {
            for i in start..end {
                out[i] = e.force_of(&policy, i, false);
            }
        }
        assert_eq!(out, whole);
    }
}
