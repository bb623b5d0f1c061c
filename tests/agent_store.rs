use flockcore::config::ConfigError;
use flockcore::grid::Point;
use flockcore::store::{Agent, AgentStore};

#[derive(Clone, Copy, Debug, PartialEq)]
struct V3(f32, f32, f32);

#[derive(Clone, Copy, Debug, PartialEq)]
struct Traits {
    max_speed: f32,
    max_force: f32,
}

fn agent(i: i32) -> Agent<V3, Traits> {
    Agent {
        position: Point { x: i, y: 2 * i, z: -i },
        velocity: V3(i as f32, 0.5, -1.0),
        traits: Traits { max_speed: 4.0 + i as f32, max_force: 1.0 },
    }
}

fn snapshot(n: i32) -> Vec<Agent<V3, Traits>> {
    (0..n).map(agent).collect()
}

const ZERO: V3 = V3(0.0, 0.0, 0.0);

#[test]
fn zero_capacity_is_refused() {
    assert!(matches!(AgentStore::<V3, Traits, V3>::with_capacity(0, ZERO), Err(ConfigError::ZeroCapacity)));
}

#[test]
fn output_length_matches_input_up_to_capacity() {
    let mut s: AgentStore<V3, Traits, V3> = AgentStore::with_capacity(8, ZERO).unwrap();
    for n in 0..=8 {
        s.load(&snapshot(n));
        assert_eq!(s.count(), n as usize);
        assert_eq!(s.store().len(), n as usize);
    }
}

#[test]
fn excess_agents_are_dropped() {
    let mut s: AgentStore<V3, Traits, V3> = AgentStore::with_capacity(3, ZERO).unwrap();
    s.load(&snapshot(10));
    assert_eq!(s.count(), 3);
    assert_eq!(s.capacity(), 3);
    assert_eq!(s.store().len(), 3);
    assert_eq!(s.get_position(2), Point { x: 2, y: 4, z: -2 });
}

#[test]
fn load_copies_in_order_and_resets_forces() {
    let mut s: AgentStore<V3, Traits, V3> = AgentStore::with_capacity(5, ZERO).unwrap();
    s.load(&snapshot(4));
    s.set_force(1, V3(1.0, 2.0, 3.0));
    s.load(&snapshot(4));
    for i in 0..4 {
        let a = agent(i as i32);
        assert_eq!(s.get_position(i), a.position);
        assert_eq!(s.get_velocity(i), a.velocity);
        assert_eq!(s.get_traits(i), a.traits);
        assert_eq!(s.get_force(i), ZERO);
    }
    assert_eq!(s.positions_vec().len(), 4);
}

#[test]
fn forces_come_back_in_snapshot_order() {
    let mut s: AgentStore<V3, Traits, V3> = AgentStore::with_capacity(4, ZERO).unwrap();
    s.load(&snapshot(4));
    s.set_force(3, V3(3.0, 0.0, 0.0));
    s.set_force(0, V3(0.5, 0.0, 0.0));
    assert_eq!(s.get_force(3), V3(3.0, 0.0, 0.0));
    assert_eq!(
        s.store(),
        vec![V3(0.5, 0.0, 0.0), ZERO, ZERO, V3(3.0, 0.0, 0.0)]
    );
}

#[test]
fn add_boid_fills_up_to_capacity_then_drops() {
    let mut s: AgentStore<V3, Traits, V3> = AgentStore::with_capacity(2, ZERO).unwrap();
    assert!(s.add_boid(&agent(0)));
    assert!(s.add_boid(&agent(1)));
    assert!(!s.add_boid(&agent(2)));
    assert_eq!(s.count(), 2);
    assert_eq!(s.get_position(1), agent(1).position);
    assert_eq!(s.get_force(1), ZERO);
    s.clear();
    assert_eq!(s.count(), 0);
    assert!(s.store().is_empty());
    assert!(s.add_boid(&agent(5)));
    assert_eq!(s.get_velocity(0), agent(5).velocity);
}
