use flockcore::grid::{axis_cell, cell_key, cell_of, grid_radius, Cell, Point};

#[test]
fn axis_cell_floors_toward_negative_infinity() {
    assert_eq!(axis_cell(0, 50), 0);
    assert_eq!(axis_cell(49, 50), 0);
    assert_eq!(axis_cell(50, 50), 1);
    assert_eq!(axis_cell(-1, 50), -1);
    assert_eq!(axis_cell(-50, 50), -1);
    assert_eq!(axis_cell(-51, 50), -2);
    assert_eq!(axis_cell(i32::MIN, 1), i32::MIN as i64);
    assert_eq!(axis_cell(i32::MAX, 1), i32::MAX as i64);
}

#[test]
fn cell_of_uses_every_axis() {
    let c = cell_of(&Point { x: 125, y: -10, z: 999 }, 50);
    assert_eq!(c, Cell { x: 2, y: -1, z: 19 });
}

#[test]
fn cell_key_packs_21_bits_per_axis() {
    assert_eq!(cell_key(&Cell { x: 0, y: 0, z: 0 }), 0);
    assert_eq!(cell_key(&Cell { x: 1, y: 2, z: 3 }), (1u64 << 42) | (2u64 << 21) | 3);
    assert_eq!(cell_key(&Cell { x: -1, y: 0, z: 0 }), 0x1f_ffffu64 << 42);
    assert_eq!(cell_key(&Cell { x: 0, y: 0, z: -1 }), 0x1f_ffff);
}

#[test]
fn cell_key_distinguishes_nearby_cells() {
    let mut keys = Vec::new();
    for x in -2i64..=2 {
        for y in -2i64..=2 {
            for z in -2i64..=2 {
                keys.push(cell_key(&Cell { x, y, z }));
            }
        }
    }
    let n = keys.len();
    keys.sort();
    keys.dedup();
    assert_eq!(keys.len(), n);
}

#[test]
fn cell_key_wraps_beyond_its_range() {
    let a = cell_key(&Cell { x: 1 << 21, y: 0, z: 0 });
    let b = cell_key(&Cell { x: 0, y: 0, z: 0 });
    assert_eq!(a, b);
}

#[test]
fn grid_radius_is_ceiling_of_radius_over_cell_size() {
    assert_eq!(grid_radius(25, 50), 1);
    assert_eq!(grid_radius(0, 50), 0);
    assert_eq!(grid_radius(50, 50), 1);
    assert_eq!(grid_radius(51, 50), 2);
    assert_eq!(grid_radius(100, 1), 100);
    assert_eq!(grid_radius(u32::MAX, 1), u32::MAX as i64);
}
