//! Quantisation of fixed-point positions to grid cells, and the packing of a
//! cell into a 64-bit key.
use vstd::prelude::*;
use vstd::arithmetic::div_mod::{lemma_fundamental_div_mod, lemma_mod_bound};

verus! {

/// Bits kept of each axis in a cell key.
pub const AXIS_MASK: u64 = 0x1f_ffff;

/// A position in fixed-point units.
#[derive(Clone, Copy, Debug, PartialEq, Eq, Structural)]
pub struct Point {
    pub x: i32,
    pub y: i32,
    pub z: i32,
}

/// A grid cell: the floor of each coordinate divided by the cell size.
#[derive(Clone, Copy, Debug, PartialEq, Eq, Structural)]
pub struct Cell {
    pub x: i64,
    pub y: i64,
    pub z: i64,
}

/// `floor(p / size)`; Euclidean division is floor division for a positive divisor.
pub open spec fn floor_div(p: int, size: int) -> int {
    p / size
}

/// `ceil(r / size)` for a non-negative `r`.
pub open spec fn ceil_div(r: int, size: int) -> int {
    (r + size - 1) / size
}

pub open spec fn cell_of_spec(p: Point, size: int) -> Cell {
    Cell {
        x: floor_div(p.x as int, size) as i64,
        y: floor_div(p.y as int, size) as i64,
        z: floor_div(p.z as int, size) as i64,
    }
}

pub open spec fn axis_bits(c: i64) -> u64 {
    (c as u64) & AXIS_MASK
}

/// Packs the low 21 bits of each axis: x in bits 42..63, y in 21..42, z in 0..21.
pub open spec fn key_spec(c: Cell) -> u64 {
    (axis_bits(c.x) << 42u64) | (axis_bits(c.y) << 21u64) | axis_bits(c.z)
}

/// An axis coordinate that the key represents without wraparound.
pub open spec fn axis_in_range(c: i64) -> bool {
    -0x10_0000 <= c < 0x10_0000
}

pub open spec fn cell_in_range(c: Cell) -> bool {
    axis_in_range(c.x) && axis_in_range(c.y) && axis_in_range(c.z)
}

pub proof fn lemma_floor_div_bounds(p: int, size: int)
    requires
        size >= 1,
        -0x8000_0000 <= p < 0x8000_0000,
    ensures
        -0x8000_0000 <= floor_div(p, size) < 0x8000_0000,
        size * floor_div(p, size) <= p < size * floor_div(p, size) + size,
{
    lemma_fundamental_div_mod(p, size);
    lemma_mod_bound(p, size);
    let q = p / size;
    assert(-0x8000_0000 <= q < 0x8000_0000) by (nonlinear_arith)
        requires
            p == size * q + p % size,
            0 <= p % size < size,
            size >= 1,
            -0x8000_0000 <= p < 0x8000_0000,
    ;
}

/// The axis coordinate of the cell that holds `p`.
pub fn axis_cell(p: i32, size: u32) -> (r: i64)
    requires
        size > 0,
    ensures
        r == floor_div(p as int, size as int),
        -0x8000_0000 <= r < 0x8000_0000,
{
    proof {
        lemma_floor_div_bounds(p as int, size as int);
    }
    match (p as i64).checked_div_euclid(size as i64) {
        Some(q) => q,
        None => 0,
    }
}

/// The cell that holds `p`.
pub fn cell_of(p: &Point, size: u32) -> (r: Cell)
    requires
        size > 0,
    ensures
        r == cell_of_spec(*p, size as int),
        -0x8000_0000 <= r.x < 0x8000_0000,
        -0x8000_0000 <= r.y < 0x8000_0000,
        -0x8000_0000 <= r.z < 0x8000_0000,
{
    Cell { x: axis_cell(p.x, size), y: axis_cell(p.y, size), z: axis_cell(p.z, size) }
}

/// The key under which a cell's agents are bucketed.
pub fn cell_key(c: &Cell) -> (r: u64)
    ensures
        r == key_spec(*c),
{
    (((c.x as u64) & AXIS_MASK) << 42u64) | (((c.y as u64) & AXIS_MASK) << 21u64) | ((
    c.z as u64) & AXIS_MASK)
}

/// The number of cells a query of radius `radius` reaches out on each axis.
pub fn grid_radius(radius: u32, size: u32) -> (r: i64)
    requires
        size > 0,
    ensures
        r == ceil_div(radius as int, size as int),
        0 <= r <= radius,
{
    let q: u64 = (radius as u64 + size as u64 - 1) / (size as u64);
    proof {
        lemma_ceil_div_bounds(radius as int, size as int);
    }
    q as i64
}

/// `ceil(r / size)` lies between zero and `r`.
pub proof fn lemma_ceil_div_bounds(r: int, size: int)
    requires
        size >= 1,
        r >= 0,
    ensures
        0 <= ceil_div(r, size) <= r,
{
    let n = r + size - 1;
    lemma_fundamental_div_mod(n, size);
    lemma_mod_bound(n, size);
    assert(0 <= n / size <= r) by (nonlinear_arith)
        requires
            size >= 1,
            n == r + size - 1,
            r >= 0,
            n == size * (n / size) + n % size,
            0 <= n % size < size,
    ;
}

proof fn lemma_axis_bits_injective(a: i64, b: i64)
    requires
        axis_in_range(a),
        axis_in_range(b),
        axis_bits(a) == axis_bits(b),
    ensures
        a == b,
{
    assert(-0x10_0000 <= a < 0x10_0000 && -0x10_0000 <= b < 0x10_0000 && ((a as u64) & 0x1f_ffffu64)
        == ((b as u64) & 0x1f_ffffu64) ==> a == b) by (bit_vector);
}

proof fn lemma_axis_bits_small(c: i64)
    ensures
        axis_bits(c) <= AXIS_MASK,
{
    let v = c as u64;
    assert(v & 0x1f_ffffu64 <= 0x1f_ffffu64) by (bit_vector);
}

/// Two cells within the key's range share a key exactly when they are the same cell.
pub proof fn lemma_key_identifies_cell(a: Cell, b: Cell)
    requires
        cell_in_range(a),
        cell_in_range(b),
    ensures
        key_spec(a) == key_spec(b) <==> a == b,
{
    if key_spec(a) == key_spec(b) {
        lemma_key_axes(a, b);
        lemma_axis_bits_injective(a.x, b.x);
        lemma_axis_bits_injective(a.y, b.y);
        lemma_axis_bits_injective(a.z, b.z);
    }
}

/// Equal keys have equal low bits on every axis.
pub proof fn lemma_key_axes(a: Cell, b: Cell)
    requires
        key_spec(a) == key_spec(b),
    ensures
        axis_bits(a.x) == axis_bits(b.x),
        axis_bits(a.y) == axis_bits(b.y),
        axis_bits(a.z) == axis_bits(b.z),
{
    let (ax, ay, az) = (axis_bits(a.x), axis_bits(a.y), axis_bits(a.z));
    let (bx, by, bz) = (axis_bits(b.x), axis_bits(b.y), axis_bits(b.z));
    lemma_axis_bits_small(a.x);
    lemma_axis_bits_small(a.y);
    lemma_axis_bits_small(a.z);
    lemma_axis_bits_small(b.x);
    lemma_axis_bits_small(b.y);
    lemma_axis_bits_small(b.z);
    assert(ax == bx && ay == by && az == bz) by (bit_vector)
        requires
            ax <= 0x1f_ffff && ay <= 0x1f_ffff && az <= 0x1f_ffff,
            bx <= 0x1f_ffff && by <= 0x1f_ffff && bz <= 0x1f_ffff,
            (ax << 42u64) | (ay << 21u64) | az == (bx << 42u64) | (by << 21u64) | bz,
    ;
}

/// Two axis coordinates less than `2^21` apart with the same low bits are equal.
pub proof fn lemma_axis_bits_near(a: i64, b: i64)
    requires
        -0x1_0000_0000_0000 <= a < 0x1_0000_0000_0000,
        -0x1_0000_0000_0000 <= b < 0x1_0000_0000_0000,
        -0x20_0000 < a - b < 0x20_0000,
        axis_bits(a) == axis_bits(b),
    ensures
        a == b,
{
    assert(-0x1_0000_0000_0000 <= a < 0x1_0000_0000_0000 && -0x1_0000_0000_0000 <= b
        < 0x1_0000_0000_0000 && -0x20_0000 < a - b < 0x20_0000 && ((a as u64) & 0x1f_ffffu64) == ((
    b as u64) & 0x1f_ffffu64) ==> a == b) by (bit_vector);
}

/// Points at most `radius` apart along an axis lie in cells at most
/// `ceil(radius / size)` apart along it.
pub proof fn lemma_close_points_close_cells(p: int, q: int, radius: int, size: int)
    requires
        size >= 1,
        radius >= 0,
        -0x8000_0000 <= p < 0x8000_0000,
        -0x8000_0000 <= q < 0x8000_0000,
        -radius <= q - p <= radius,
    ensures
        -ceil_div(radius, size) <= floor_div(q, size) - floor_div(p, size) <= ceil_div(radius, size),
{
    lemma_floor_div_bounds(p, size);
    lemma_floor_div_bounds(q, size);
    let n = radius + size - 1;
    lemma_fundamental_div_mod(n, size);
    lemma_mod_bound(n, size);
    let g = n / size;
    let cp = floor_div(p, size);
    let cq = floor_div(q, size);
    assert(cq - cp <= g && cp - cq <= g) by (nonlinear_arith)
        requires
            size * cp <= p < size * cp + size,
            size * cq <= q < size * cq + size,
            -radius <= q - p <= radius,
            n == size * g + n % size,
            0 <= n % size < size,
            n == radius + size - 1,
            size >= 1,
    ;
}

} // verus!
