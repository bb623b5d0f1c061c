use flockcore::config::ConfigError;
use flockcore::grid::{cell_of, Point};
use flockcore::spatial::SpatialIndex;

fn pt(x: i32, y: i32, z: i32) -> Point {
    Point { x, y, z }
}

fn sorted(mut v: Vec<usize>) -> Vec<usize> {
    v.sort();
    v
}

struct Lcg(u64);

impl Lcg {
    fn next(&mut self, bound: i32) -> i32 {
        self.0 = self.0.wrapping_mul(6364136223846793005).wrapping_add(1442695040888963407);
        ((self.0 >> 33) % bound as u64) as i32
    }
}

fn dist2(a: &Point, b: &Point) -> i64 {
    let dx = (a.x - b.x) as i64;
    let dy = (a.y - b.y) as i64;
    let dz = (a.z - b.z) as i64;
    dx * dx + dy * dy + dz * dz
}

#[test]
fn zero_cell_size_is_refused() {
    assert!(matches!(SpatialIndex::new(0), Err(ConfigError::ZeroCellSize)));
    assert_eq!(SpatialIndex::new(7).unwrap().cell_size(), 7);
}

#[test]
fn empty_index_returns_nothing() {
    let idx = SpatialIndex::new(10).unwrap();
    assert!(idx.query_neighbors(&pt(0, 0, 0), 100).is_empty());
}

#[test]
fn query_returns_agents_of_overlapping_cells() {
    let mut idx = SpatialIndex::new(10).unwrap();
    let positions = vec![pt(0, 0, 0), pt(5, 5, 5), pt(15, 0, 0), pt(35, 0, 0), pt(-5, 0, 0)];
    idx.rebuild(&positions);
    // radius 5 reaches one cell around the centre cell: x cells -1, 0, 1
    let r = sorted(idx.query_neighbors(&pt(0, 0, 0), 5));
    assert_eq!(r, vec![0, 1, 2, 4]);
    // each agent once
    let r = sorted(idx.query_neighbors(&pt(20, 0, 0), 10));
    assert_eq!(r, vec![2, 3]);
}

#[test]
fn rebuild_replaces_previous_content() {
    let mut idx = SpatialIndex::new(10).unwrap();
    idx.rebuild(&vec![pt(0, 0, 0), pt(1, 1, 1), pt(500, 500, 500)]);
    assert_eq!(sorted(idx.query_neighbors(&pt(0, 0, 0), 1)), vec![0, 1]);
    idx.rebuild(&vec![pt(500, 500, 500)]);
    assert!(idx.query_neighbors(&pt(0, 0, 0), 1).is_empty());
    assert_eq!(idx.query_neighbors(&pt(500, 500, 500), 1), vec![0]);
    idx.rebuild(&vec![]);
    assert!(idx.query_neighbors(&pt(500, 500, 500), 1).is_empty());
}

#[test]
fn planar_query_keeps_the_z_layer() {
    let mut idx = SpatialIndex::new(10).unwrap();
    idx.rebuild(&vec![pt(0, 0, 0), pt(8, 8, 0), pt(0, 0, 12), pt(-9, 3, 5)]);
    assert_eq!(sorted(idx.query_neighbors_2d(&pt(1, 1, 1), 10)), vec![0, 1, 3]);
    assert_eq!(sorted(idx.query_neighbors(&pt(1, 1, 1), 10)), vec![0, 1, 2, 3]);
}

#[test]
fn query_is_a_superset_of_agents_within_radius() {
    let mut rng = Lcg(7);
    let positions: Vec<Point> =
        (0..600).map(|_| pt(rng.next(400) - 200, rng.next(400) - 200, rng.next(400) - 200)).collect();
    let mut idx = SpatialIndex::new(30).unwrap();
    idx.rebuild(&positions);
    for radius in [0u32, 10, 29, 30, 45, 90] {
        for a in (0..positions.len()).step_by(7) {
            let found = idx.query_neighbors(&positions[a], radius);
            for b in 0..positions.len() {
                if dist2(&positions[a], &positions[b]) <= (radius as i64) * (radius as i64) {
                    assert!(found.contains(&b), "agent {b} missing near {a} at radius {radius}");
                }
            }
        }
    }
}

#[test]
fn repeated_queries_agree() {
    let mut rng = Lcg(11);
    let positions: Vec<Point> =
        (0..300).map(|_| pt(rng.next(200), rng.next(200), rng.next(200))).collect();
    let mut idx = SpatialIndex::new(25).unwrap();
    idx.rebuild(&positions);
    for a in 0..positions.len() {
        let first = sorted(idx.query_neighbors(&positions[a], 40));
        let second = sorted(idx.query_neighbors(&positions[a], 40));
        assert_eq!(first, second);
    }
}

#[test]
fn ten_thousand_agents_visit_only_a_three_cube_block() {
    let mut rng = Lcg(2024);
    let positions: Vec<Point> =
        (0..10_000).map(|_| pt(rng.next(1000), rng.next(1000), rng.next(1000))).collect();
    let mut idx = SpatialIndex::new(50).unwrap();
    idx.rebuild(&positions);
    for a in (0..positions.len()).step_by(97) {
        let centre = cell_of(&positions[a], 50);
        let found = idx.query_neighbors(&positions[a], 25);
        let mut seen = found.clone();
        seen.sort();
        seen.dedup();
        assert_eq!(seen.len(), found.len());
        for &j in &found {
            let c = cell_of(&positions[j], 50);
            assert!((c.x - centre.x).abs() <= 1);
            assert!((c.y - centre.y).abs() <= 1);
            assert!((c.z - centre.z).abs() <= 1);
        }
        for j in 0..positions.len() {
            let c = cell_of(&positions[j], 50);
            let inside = (c.x - centre.x).abs() <= 1
                && (c.y - centre.y).abs() <= 1
                && (c.z - centre.z).abs() <= 1;
            assert_eq!(inside, found.contains(&j));
            if dist2(&positions[a], &positions[j]) <= 625 {
                assert!(inside);
            }
        }
    }
}
