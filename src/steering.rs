//! Steering forces in fixed-point arithmetic: one contribution per behaviour,
//! each rescaled to the agent's maximum speed, clamped to its maximum force
//! and weighted.
use vstd::prelude::*;
use crate::fixed::{
    V3, COMPONENT_BOUND, add3, bounded3, clamp_length, clamp_spec, div_trunc, lemma_clamp_bound,
    lemma_tdiv, norm2, scale_spec, scale_to, sub3, tdiv, tdiv3, view3,
};
use crate::grid::Point;
use crate::neighbors::{MIN_DIST_SQ, NeighborSets, distance_sq};
use crate::spatial::dist2;

verus! {

/// Weights are given in thousandths.
pub const WEIGHT_SCALE: i128 = 1000;

/// Scale of a separation term: a neighbour at distance `d` pushes with
/// `SEPARATION_GAIN / d` along the unit vector away from it.
pub const SEPARATION_GAIN: i128 = 0x100_0000;

/// A velocity in fixed-point units per tick.
#[derive(Clone, Copy, Debug, PartialEq, Eq, Structural)]
pub struct Velocity {
    pub x: i32,
    pub y: i32,
    pub z: i32,
}

/// A steering force in the fixed-point units of a velocity.
#[derive(Clone, Copy, Debug, PartialEq, Eq, Structural)]
pub struct Force {
    pub x: i64,
    pub y: i64,
    pub z: i64,
}

/// Behaviour traits of one agent: speeds and forces in velocity units,
/// weights in thousandths.
#[derive(Clone, Copy, Debug, PartialEq, Eq, Structural)]
pub struct Traits {
    pub max_speed: u32,
    pub max_force: u32,
    pub separation: u32,
    pub alignment: u32,
    pub cohesion: u32,
    pub targeting: u32,
}

pub open spec fn pview(p: Point) -> V3 {
    (p.x as int, p.y as int, p.z as int)
}

pub open spec fn vview(v: Velocity) -> V3 {
    (v.x as int, v.y as int, v.z as int)
}

pub open spec fn fview(f: Force) -> V3 {
    (f.x as int, f.y as int, f.z as int)
}

pub open spec fn zero3() -> V3 {
    (0, 0, 0)
}

/// The contribution of one behaviour: the desired velocity of length
/// `max_speed` along `dir`, minus the current velocity, clamped to
/// `max_force`, times `weight` thousandths. Nothing for a zero direction.
pub open spec fn steer_spec(dir: V3, vel: V3, max_speed: int, max_force: int, weight: int) -> V3 {
    if norm2(dir) == 0 {
        zero3()
    } else {
        let c = clamp_spec(sub3(scale_spec(dir, max_speed), vel), max_force);
        tdiv3((c.0 * weight, c.1 * weight, c.2 * weight), WEIGHT_SCALE as int)
    }
}

/// Neighbour `j` of agent `i` may contribute: an agent, not coincident with `i`.
pub open spec fn valid_neighbor(points: Seq<Point>, i: int, j: int) -> bool {
    0 <= j < points.len() && MIN_DIST_SQ <= dist2(points[i], points[j])
}

/// The push away from `q` felt at `p`: the difference scaled by
/// `SEPARATION_GAIN` over the squared distance.
pub open spec fn separation_term(p: Point, q: Point) -> V3 {
    let d = sub3(pview(p), pview(q));
    tdiv3(
        (d.0 * SEPARATION_GAIN, d.1 * SEPARATION_GAIN, d.2 * SEPARATION_GAIN),
        norm2(d),
    )
}

/// Sum of the separation terms of the valid entries of `js`, and their number.
pub open spec fn separation_sum(points: Seq<Point>, i: int, js: Seq<usize>) -> (V3, int)
    decreases js.len(),
{
    if js.len() == 0 {
        (zero3(), 0)
    } else {
        let (s, c) = separation_sum(points, i, js.drop_last());
        let j = js.last() as int;
        if valid_neighbor(points, i, j) {
            (add3(s, separation_term(points[i], points[j])), c + 1)
        } else {
            (s, c)
        }
    }
}

/// Sum of the velocities of the valid entries of `js`, and their number.
pub open spec fn alignment_sum(points: Seq<Point>, vels: Seq<Velocity>, i: int, js: Seq<usize>) -> (
    V3,
    int,
)
    decreases js.len(),
{
    if js.len() == 0 {
        (zero3(), 0)
    } else {
        let (s, c) = alignment_sum(points, vels, i, js.drop_last());
        let j = js.last() as int;
        if valid_neighbor(points, i, j) {
            (add3(s, vview(vels[j])), c + 1)
        } else {
            (s, c)
        }
    }
}

/// Sum of the positions of the valid entries of `js`, and their number.
pub open spec fn cohesion_sum(points: Seq<Point>, i: int, js: Seq<usize>) -> (V3, int)
    decreases js.len(),
{
    if js.len() == 0 {
        (zero3(), 0)
    } else {
        let (s, c) = cohesion_sum(points, i, js.drop_last());
        let j = js.last() as int;
        if valid_neighbor(points, i, j) {
            (add3(s, pview(points[j])), c + 1)
        } else {
            (s, c)
        }
    }
}

/// Steering along the average of a sum of `count` entries; nothing when empty.
pub open spec fn steer_average(sum: V3, count: int, vel: V3, t: Traits, weight: int) -> V3 {
    if count == 0 {
        zero3()
    } else {
        steer_spec(tdiv3(sum, count), vel, t.max_speed as int, t.max_force as int, weight)
    }
}

pub open spec fn separation_force(points: Seq<Point>, vels: Seq<Velocity>, t: Traits, i: int, js: Seq<usize>) -> V3 {
    let (s, c) = separation_sum(points, i, js);
    steer_average(s, c, vview(vels[i]), t, t.separation as int)
}

pub open spec fn alignment_force(points: Seq<Point>, vels: Seq<Velocity>, t: Traits, i: int, js: Seq<usize>) -> V3 {
    let (s, c) = alignment_sum(points, vels, i, js);
    steer_average(s, c, vview(vels[i]), t, t.alignment as int)
}

/// Steering toward the centre of the neighbours.
pub open spec fn cohesion_force(points: Seq<Point>, vels: Seq<Velocity>, t: Traits, i: int, js: Seq<usize>) -> V3 {
    let (s, c) = cohesion_sum(points, i, js);
    if c == 0 {
        zero3()
    } else {
        steer_spec(
            sub3(tdiv3(s, c), pview(points[i])),
            vview(vels[i]),
            t.max_speed as int,
            t.max_force as int,
            t.cohesion as int,
        )
    }
}

pub open spec fn target_force(points: Seq<Point>, vels: Seq<Velocity>, t: Traits, i: int, target: Option<Point>) -> V3 {
    match target {
        Some(g) => steer_spec(
            sub3(pview(g), pview(points[i])),
            vview(vels[i]),
            t.max_speed as int,
            t.max_force as int,
            t.targeting as int,
        ),
        None => zero3(),
    }
}

/// The total steering force of agent `i` from its neighbour lists and the target.
pub open spec fn force_spec(
    points: Seq<Point>,
    vels: Seq<Velocity>,
    t: Traits,
    i: int,
    sep: Seq<usize>,
    align: Seq<usize>,
    coh: Seq<usize>,
    target: Option<Point>,
) -> V3 {
    add3(
        add3(separation_force(points, vels, t, i, sep), alignment_force(points, vels, t, i, align)),
        add3(cohesion_force(points, vels, t, i, coh), target_force(points, vels, t, i, target)),
    )
}

/// Largest component of a contribution: `(2^32 - 1)^2 / 1000 < 2^55`.
pub const CONTRIBUTION_BOUND: i128 = 0x80_0000_0000_0000;

/// Each behaviour's contribution is at most `max_force × weight` long: its
/// squared length, in thousandths squared, stays within `(max_force × weight)^2`.
pub proof fn lemma_contribution_bound(dir: V3, vel: V3, max_speed: int, max_force: int, weight: int)
    requires
        max_speed >= 0,
        max_force >= 0,
        weight >= 0,
    ensures
        norm2(steer_spec(dir, vel, max_speed, max_force, weight)) * (WEIGHT_SCALE * WEIGHT_SCALE)
            <= (max_force * weight) * (max_force * weight),
{
    let r = steer_spec(dir, vel, max_speed, max_force, weight);
    assert((max_force * weight) * (max_force * weight) >= 0) by (nonlinear_arith);
    if norm2(dir) != 0 {
        let c = clamp_spec(sub3(scale_spec(dir, max_speed), vel), max_force);
        lemma_clamp_bound(sub3(scale_spec(dir, max_speed), vel), max_force);
        let k = WEIGHT_SCALE as int;
        lemma_tdiv(c.0 * weight, k);
        lemma_tdiv(c.1 * weight, k);
        lemma_tdiv(c.2 * weight, k);
        let ww = weight * weight;
        assert((c.0 * weight) * (c.0 * weight) == ww * (c.0 * c.0)) by (nonlinear_arith)
            requires
                ww == weight * weight,
        ;
        assert((c.1 * weight) * (c.1 * weight) == ww * (c.1 * c.1)) by (nonlinear_arith)
            requires
                ww == weight * weight,
        ;
        assert((c.2 * weight) * (c.2 * weight) == ww * (c.2 * c.2)) by (nonlinear_arith)
            requires
                ww == weight * weight,
        ;
        let kk = k * k;
        assert(norm2(r) * kk == r.0 * r.0 * kk + r.1 * r.1 * kk + r.2 * r.2 * kk) by (nonlinear_arith)
            requires
                norm2(r) == r.0 * r.0 + r.1 * r.1 + r.2 * r.2,
        ;
        assert(ww * norm2(c) == ww * (c.0 * c.0) + ww * (c.1 * c.1) + ww * (c.2 * c.2)) by (nonlinear_arith)
            requires
                norm2(c) == c.0 * c.0 + c.1 * c.1 + c.2 * c.2,
        ;
        assert(ww * norm2(c) <= ww * (max_force * max_force)) by (nonlinear_arith)
            requires
                norm2(c) <= max_force * max_force,
                ww >= 0,
        {
        }
        assert(ww >= 0) by (nonlinear_arith)
            requires
                ww == weight * weight,
        ;
        assert(ww * (max_force * max_force) == (max_force * weight) * (max_force * weight)) by (nonlinear_arith)
            requires
                ww == weight * weight,
        ;
    }
}

/// With no neighbour in any list and no target, the force is zero.
pub proof fn lemma_no_neighbors_no_force(
    points: Seq<Point>,
    vels: Seq<Velocity>,
    t: Traits,
    i: int,
    sep: Seq<usize>,
    align: Seq<usize>,
    coh: Seq<usize>,
)
    requires
        sep.len() == 0,
        align.len() == 0,
        coh.len() == 0,
    ensures
        force_spec(points, vels, t, i, sep, align, coh, None) == zero3(),
{
}

proof fn lemma_tdiv_small(a: int, b: int, bound: int)
    requires
        b > 0,
        bound >= 0,
        -(bound * b) <= a <= bound * b,
    ensures
        -bound <= tdiv(a, b) <= bound,
{
    lemma_tdiv(a, b);
    let q = tdiv(a, b);
    if a >= 0 {
        assert(q <= bound) by (nonlinear_arith)
            requires
                q * b <= a,
                a <= bound * b,
                b > 0,
        ;
    } else {
        assert(q >= -bound) by (nonlinear_arith)
            requires
                a <= q * b,
                -(bound * b) <= a,
                b > 0,
        ;
    }
}

proof fn lemma_component_of_norm(v: V3, m: int)
    requires
        norm2(v) <= m * m,
        m >= 0,
    ensures
        bounded3(v, m),
{
    assert(bounded3(v, m)) by (nonlinear_arith)
        requires
            v.0 * v.0 + v.1 * v.1 + v.2 * v.2 <= m * m,
            m >= 0,
    ;
}

/// The contribution of one behaviour (see `steer_spec`).
pub fn steer(dir: (i128, i128, i128), vel: Velocity, max_speed: u32, max_force: u32, weight: u32) -> (r: (
    i128,
    i128,
    i128,
))
    requires
        bounded3(view3(dir), COMPONENT_BOUND as int),
    ensures
        view3(r) == steer_spec(view3(dir), vview(vel), max_speed as int, max_force as int, weight as int),
        bounded3(view3(r), CONTRIBUTION_BOUND as int),
{
    proof {
        assert(dir.0 * dir.0 <= 0x1_0000_0000_0000_0000_0000 && dir.1 * dir.1 <= 0x1_0000_0000_0000_0000_0000
            && dir.2 * dir.2 <= 0x1_0000_0000_0000_0000_0000) by (nonlinear_arith)
            requires
                bounded3(view3(dir), COMPONENT_BOUND as int),
        ;
        assert(dir.0 * dir.0 >= 0 && dir.1 * dir.1 >= 0 && dir.2 * dir.2 >= 0) by (nonlinear_arith);
    }
    let n2 = dir.0 * dir.0 + dir.1 * dir.1 + dir.2 * dir.2;
    if n2 == 0 {
        return (0, 0, 0);
    }
    let d = scale_to(dir, max_speed);
    let delta = (d.0 - vel.x as i128, d.1 - vel.y as i128, d.2 - vel.z as i128);
    let c = clamp_length(delta, max_force);
    proof {
        lemma_component_of_norm(view3(c), max_force as int);
        let m = max_force as int;
        let w = weight as int;
        assert(-0xffff_ffff * 0xffff_ffff <= c.0 * w <= 0xffff_ffff * 0xffff_ffff
            && -0xffff_ffff * 0xffff_ffff <= c.1 * w <= 0xffff_ffff * 0xffff_ffff
            && -0xffff_ffff * 0xffff_ffff <= c.2 * w <= 0xffff_ffff * 0xffff_ffff) by (nonlinear_arith)
            requires
                bounded3(view3(c), m),
                0 <= m <= 0xffff_ffff,
                0 <= w <= 0xffff_ffff,
        ;
    }
    let w = weight as i128;
    let r = (
        div_trunc(c.0 * w, WEIGHT_SCALE),
        div_trunc(c.1 * w, WEIGHT_SCALE),
        div_trunc(c.2 * w, WEIGHT_SCALE),
    );
    proof {
        lemma_tdiv_small(c.0 * w, WEIGHT_SCALE as int, CONTRIBUTION_BOUND as int);
        lemma_tdiv_small(c.1 * w, WEIGHT_SCALE as int, CONTRIBUTION_BOUND as int);
        lemma_tdiv_small(c.2 * w, WEIGHT_SCALE as int, CONTRIBUTION_BOUND as int);
    }
    r
}

proof fn lemma_diff_within_norm(d: V3)
    ensures
        -norm2(d) <= d.0 <= norm2(d),
        -norm2(d) <= d.1 <= norm2(d),
        -norm2(d) <= d.2 <= norm2(d),
{
    assert(-norm2(d) <= d.0 <= norm2(d) && -norm2(d) <= d.1 <= norm2(d) && -norm2(d) <= d.2
        <= norm2(d)) by (nonlinear_arith)
        requires
            norm2(d) == d.0 * d.0 + d.1 * d.1 + d.2 * d.2,
    ;
}

/// Sum and number of the separation terms of agent `i` (see `separation_sum`).
pub fn separation_accumulate(points: &Vec<Point>, i: usize, js: &Vec<usize>) -> (r: (
    (i128, i128, i128),
    usize,
))
    requires
        i < points@.len(),
    ensures
        (view3(r.0), r.1 as int) == separation_sum(points@, i as int, js@),
        bounded3(view3(r.0), r.1 * SEPARATION_GAIN),
{
    let p = points[i];
    let mut sum: (i128, i128, i128) = (0, 0, 0);
    let mut count: usize = 0;
    let mut k: usize = 0;
    while k < js.len()
        invariant
            i < points@.len(),
            p == points@[i as int],
            k <= js@.len(),
            count <= k,
            (view3(sum), count as int) == separation_sum(points@, i as int, js@.take(k as int)),
            bounded3(view3(sum), count * SEPARATION_GAIN),
        decreases js@.len() - k,
    {
        let j = js[k];
        proof {
            let next = js@.take(k + 1);
            assert(next.drop_last() == js@.take(k as int));
            assert(next.last() == j);
        }
        if j < points.len() {
            let d2 = distance_sq(&p, &points[j]);
            if MIN_DIST_SQ <= d2 {
                let q = points[j];
                let dx = p.x as i128 - q.x as i128;
                let dy = p.y as i128 - q.y as i128;
                let dz = p.z as i128 - q.z as i128;
                proof {
                    let d = (dx as int, dy as int, dz as int);
                    assert(d == sub3(pview(p), pview(q)));
                    assert(norm2(d) == d2);
                    lemma_diff_within_norm(d);
                    assert(-(SEPARATION_GAIN * d2) <= dx * SEPARATION_GAIN <= SEPARATION_GAIN * d2
                        && -(SEPARATION_GAIN * d2) <= dy * SEPARATION_GAIN <= SEPARATION_GAIN * d2
                        && -(SEPARATION_GAIN * d2) <= dz * SEPARATION_GAIN <= SEPARATION_GAIN * d2)
                        by (nonlinear_arith)
                        requires
                            -d2 <= dx <= d2,
                            -d2 <= dy <= d2,
                            -d2 <= dz <= d2,
                    ;
                    assert(d2 <= 0x3_0000_0000_0000_0000) by (nonlinear_arith)
                        requires
                            d2 == dx * dx + dy * dy + dz * dz,
                            -0x1_0000_0000 <= dx <= 0x1_0000_0000,
                            -0x1_0000_0000 <= dy <= 0x1_0000_0000,
                            -0x1_0000_0000 <= dz <= 0x1_0000_0000,
                    ;
                    lemma_tdiv_small(dx * SEPARATION_GAIN, d2 as int, SEPARATION_GAIN as int);
                    lemma_tdiv_small(dy * SEPARATION_GAIN, d2 as int, SEPARATION_GAIN as int);
                    lemma_tdiv_small(dz * SEPARATION_GAIN, d2 as int, SEPARATION_GAIN as int);
                    assert(count * SEPARATION_GAIN + SEPARATION_GAIN == (count + 1) * SEPARATION_GAIN);
                }
                let t = (
                    div_trunc(dx * SEPARATION_GAIN, d2),
                    div_trunc(dy * SEPARATION_GAIN, d2),
                    div_trunc(dz * SEPARATION_GAIN, d2),
                );
                sum = (sum.0 + t.0, sum.1 + t.1, sum.2 + t.2);
                count += 1;
            }
        }
        k += 1;
    }
    proof {
        assert(js@.take(js@.len() as int) == js@);
    }
    (sum, count)
}

/// Sum and number of the neighbours' velocities (see `alignment_sum`).
pub fn alignment_accumulate(points: &Vec<Point>, vels: &Vec<Velocity>, i: usize, js: &Vec<usize>) -> (r: (
    (i128, i128, i128),
    usize,
))
    requires
        i < points@.len(),
        vels@.len() == points@.len(),
    ensures
        (view3(r.0), r.1 as int) == alignment_sum(points@, vels@, i as int, js@),
        bounded3(view3(r.0), r.1 * 0x8000_0000),
{
    let p = points[i];
    let mut sum: (i128, i128, i128) = (0, 0, 0);
    let mut count: usize = 0;
    let mut k: usize = 0;
    while k < js.len()
        invariant
            i < points@.len(),
            vels@.len() == points@.len(),
            p == points@[i as int],
            k <= js@.len(),
            count <= k,
            (view3(sum), count as int) == alignment_sum(points@, vels@, i as int, js@.take(k as int)),
            bounded3(view3(sum), count * 0x8000_0000),
        decreases js@.len() - k,
    {
        let j = js[k];
        proof {
            let next = js@.take(k + 1);
            assert(next.drop_last() == js@.take(k as int));
            assert(next.last() == j);
        }
        if j < points.len() {
            let d2 = distance_sq(&p, &points[j]);
            if MIN_DIST_SQ <= d2 {
                let v = vels[j];
                proof {
                    assert(count * 0x8000_0000 + 0x8000_0000 == (count + 1) * 0x8000_0000);
                }
                sum = (sum.0 + v.x as i128, sum.1 + v.y as i128, sum.2 + v.z as i128);
                count += 1;
            }
        }
        k += 1;
    }
    proof {
        assert(js@.take(js@.len() as int) == js@);
    }
    (sum, count)
}

/// Sum and number of the neighbours' positions (see `cohesion_sum`).
pub fn cohesion_accumulate(points: &Vec<Point>, i: usize, js: &Vec<usize>) -> (r: (
    (i128, i128, i128),
    usize,
))
    requires
        i < points@.len(),
    ensures
        (view3(r.0), r.1 as int) == cohesion_sum(points@, i as int, js@),
        bounded3(view3(r.0), r.1 * 0x8000_0000),
{
    let p = points[i];
    let mut sum: (i128, i128, i128) = (0, 0, 0);
    let mut count: usize = 0;
    let mut k: usize = 0;
    while k < js.len()
        invariant
            i < points@.len(),
            p == points@[i as int],
            k <= js@.len(),
            count <= k,
            (view3(sum), count as int) == cohesion_sum(points@, i as int, js@.take(k as int)),
            bounded3(view3(sum), count * 0x8000_0000),
        decreases js@.len() - k,
    {
        let j = js[k];
        proof {
            let next = js@.take(k + 1);
            assert(next.drop_last() == js@.take(k as int));
            assert(next.last() == j);
        }
        if j < points.len() {
            let d2 = distance_sq(&p, &points[j]);
            if MIN_DIST_SQ <= d2 {
                let q = points[j];
                proof {
                    assert(count * 0x8000_0000 + 0x8000_0000 == (count + 1) * 0x8000_0000);
                }
                sum = (sum.0 + q.x as i128, sum.1 + q.y as i128, sum.2 + q.z as i128);
                count += 1;
            }
        }
        k += 1;
    }
    proof {
        assert(js@.take(js@.len() as int) == js@);
    }
    (sum, count)
}

/// The average of `count > 0` entries summing to `sum`, each component
/// rounded toward zero.
fn average(sum: (i128, i128, i128), count: usize, bound: i128) -> (r: (i128, i128, i128))
    requires
        count > 0,
        0 <= bound <= COMPONENT_BOUND,
        bounded3(view3(sum), count * bound),
    ensures
        view3(r) == tdiv3(view3(sum), count as int),
        bounded3(view3(r), bound as int),
{
    proof {
        assert(count * bound <= 0xffff_ffff_ffff_ffff * COMPONENT_BOUND) by (nonlinear_arith)
            requires
                count <= 0xffff_ffff_ffff_ffff,
                0 <= bound <= COMPONENT_BOUND,
        ;
        assert(bound * count == count * bound) by (nonlinear_arith);
        lemma_tdiv_small(sum.0 as int, count as int, bound as int);
        lemma_tdiv_small(sum.1 as int, count as int, bound as int);
        lemma_tdiv_small(sum.2 as int, count as int, bound as int);
    }
    let c = count as i128;
    (div_trunc(sum.0, c), div_trunc(sum.1, c), div_trunc(sum.2, c))
}

fn separation_part(points: &Vec<Point>, vels: &Vec<Velocity>, t: &Traits, i: usize, js: &Vec<usize>) -> (r: (
    i128,
    i128,
    i128,
))
    requires
        i < points@.len(),
        vels@.len() == points@.len(),
    ensures
        view3(r) == separation_force(points@, vels@, *t, i as int, js@),
        bounded3(view3(r), CONTRIBUTION_BOUND as int),
{
    let (s, c) = separation_accumulate(points, i, js);
    if c == 0 {
        (0, 0, 0)
    } else {
        let avg = average(s, c, SEPARATION_GAIN);
        steer(avg, vels[i], t.max_speed, t.max_force, t.separation)
    }
}

fn alignment_part(points: &Vec<Point>, vels: &Vec<Velocity>, t: &Traits, i: usize, js: &Vec<usize>) -> (r: (
    i128,
    i128,
    i128,
))
    requires
        i < points@.len(),
        vels@.len() == points@.len(),
    ensures
        view3(r) == alignment_force(points@, vels@, *t, i as int, js@),
        bounded3(view3(r), CONTRIBUTION_BOUND as int),
{
    let (s, c) = alignment_accumulate(points, vels, i, js);
    if c == 0 {
        (0, 0, 0)
    } else {
        let avg = average(s, c, 0x8000_0000);
        steer(avg, vels[i], t.max_speed, t.max_force, t.alignment)
    }
}

fn cohesion_part(points: &Vec<Point>, vels: &Vec<Velocity>, t: &Traits, i: usize, js: &Vec<usize>) -> (r: (
    i128,
    i128,
    i128,
))
    requires
        i < points@.len(),
        vels@.len() == points@.len(),
    ensures
        view3(r) == cohesion_force(points@, vels@, *t, i as int, js@),
        bounded3(view3(r), CONTRIBUTION_BOUND as int),
{
    let (s, c) = cohesion_accumulate(points, i, js);
    if c == 0 {
        (0, 0, 0)
    } else {
        let p = points[i];
        let avg = average(s, c, 0x8000_0000);
        let dir = (avg.0 - p.x as i128, avg.1 - p.y as i128, avg.2 - p.z as i128);
        steer(dir, vels[i], t.max_speed, t.max_force, t.cohesion)
    }
}

fn target_part(points: &Vec<Point>, vels: &Vec<Velocity>, t: &Traits, i: usize, target: Option<Point>) -> (r: (
    i128,
    i128,
    i128,
))
    requires
        i < points@.len(),
        vels@.len() == points@.len(),
    ensures
        view3(r) == target_force(points@, vels@, *t, i as int, target),
        bounded3(view3(r), CONTRIBUTION_BOUND as int),
{
    match target {
        Some(g) => {
            let p = points[i];
            let dir = (g.x as i128 - p.x as i128, g.y as i128 - p.y as i128, g.z as i128 - p.z as i128);
            steer(dir, vels[i], t.max_speed, t.max_force, t.targeting)
        },
        None => (0, 0, 0),
    }
}

/// The steering force of agent `i` from its neighbour lists and the target
/// (see `force_spec`). Entries that are out of range, or at agent `i`'s very
/// position, are skipped.
pub fn steering_force(
    points: &Vec<Point>,
    vels: &Vec<Velocity>,
    traits: &Traits,
    i: usize,
    sets: &NeighborSets,
    target: Option<Point>,
) -> (r: Force)
    requires
        i < points@.len(),
        vels@.len() == points@.len(),
    ensures
        fview(r) == force_spec(
            points@,
            vels@,
            *traits,
            i as int,
            sets.separation@,
            sets.alignment@,
            sets.cohesion@,
            target,
        ),
        bounded3(fview(r), 4 * CONTRIBUTION_BOUND),
{
    let sep = separation_part(points, vels, traits, i, &sets.separation);
    let align = alignment_part(points, vels, traits, i, &sets.alignment);
    let coh = cohesion_part(points, vels, traits, i, &sets.cohesion);
    let seek = target_part(points, vels, traits, i, target);
    Force {
        x: (sep.0 + align.0 + (coh.0 + seek.0)) as i64,
        y: (sep.1 + align.1 + (coh.1 + seek.1)) as i64,
        z: (sep.2 + align.2 + (coh.2 + seek.2)) as i64,
    }
}

/// Sum of `f` over the entries of `js`, paired with the sum of its counts.
pub open spec fn total(js: Seq<usize>, f: spec_fn(usize) -> (V3, int)) -> (V3, int)
    decreases js.len(),
{
    if js.len() == 0 {
        (zero3(), 0)
    } else {
        let (s, c) = total(js.drop_last(), f);
        let (t, d) = f(js.last());
        (add3(s, t), c + d)
    }
}

pub open spec fn plus(a: (V3, int), b: (V3, int)) -> (V3, int) {
    (add3(a.0, b.0), a.1 + b.1)
}

pub open spec fn separation_entry(points: Seq<Point>, i: int) -> spec_fn(usize) -> (V3, int) {
    |j: usize|
        if valid_neighbor(points, i, j as int) {
            (separation_term(points[i], points[j as int]), 1)
        } else {
            (zero3(), 0)
        }
}

pub open spec fn alignment_entry(points: Seq<Point>, vels: Seq<Velocity>, i: int) -> spec_fn(usize) -> (V3, int) {
    |j: usize|
        if valid_neighbor(points, i, j as int) {
            (vview(vels[j as int]), 1)
        } else {
            (zero3(), 0)
        }
}

pub open spec fn cohesion_entry(points: Seq<Point>, i: int) -> spec_fn(usize) -> (V3, int) {
    |j: usize|
        if valid_neighbor(points, i, j as int) {
            (pview(points[j as int]), 1)
        } else {
            (zero3(), 0)
        }
}

proof fn lemma_sums_are_totals(points: Seq<Point>, vels: Seq<Velocity>, i: int, js: Seq<usize>)
    ensures
        separation_sum(points, i, js) == total(js, separation_entry(points, i)),
        alignment_sum(points, vels, i, js) == total(js, alignment_entry(points, vels, i)),
        cohesion_sum(points, i, js) == total(js, cohesion_entry(points, i)),
    decreases js.len(),
{
    if js.len() > 0 {
        lemma_sums_are_totals(points, vels, i, js.drop_last());
    }
}

proof fn lemma_total_remove(b: Seq<usize>, k: int, f: spec_fn(usize) -> (V3, int))
    requires
        0 <= k < b.len(),
    ensures
        total(b, f) == plus(total(b.remove(k), f), f(b[k])),
    decreases b.len(),
{
    b.remove_ensures(k);
    if k == b.len() - 1 {
        assert(b.remove(k) == b.drop_last());
    } else {
        let d = b.drop_last();
        lemma_total_remove(d, k, f);
        d.remove_ensures(k);
        assert(d.remove(k) == b.remove(k).drop_last());
        assert(b.remove(k).last() == b.last());
        assert(d[k] == b[k]);
    }
}

/// A total over a list without duplicates depends only on which entries the
/// list holds, not on their order.
pub proof fn lemma_total_order_free(a: Seq<usize>, b: Seq<usize>, f: spec_fn(usize) -> (V3, int))
    requires
        a.no_duplicates(),
        b.no_duplicates(),
        forall|x: usize| #[trigger] a.contains(x) <==> b.contains(x),
    ensures
        total(a, f) == total(b, f),
    decreases a.len(),
{
    if a.len() == 0 {
        if b.len() > 0 {
            assert(b.contains(b[0]));
            assert(a.contains(b[0]));
        }
        assert(total(a, f) == total(b, f));
    } else {
        let x = a.last();
        assert(a.contains(x));
        let k = choose|k: int| 0 <= k < b.len() && #[trigger] b[k] == x;
        let a2 = a.drop_last();
        let b2 = b.remove(k);
        b.remove_ensures(k);
        assert(a2.no_duplicates()) by {
            assert forall|p: int, q: int| 0 <= p < q < a2.len() implies a2[p] != a2[q] by {
                assert(a[p] == a2[p] && a[q] == a2[q]);
            }
        }
        assert(b2.no_duplicates()) by {
            assert forall|p: int, q: int| 0 <= p < q < b2.len() implies b2[p] != b2[q] by {
                let pp = if p < k { p } else { p + 1 };
                let qq = if q < k { q } else { q + 1 };
                assert(b2[p] == b[pp] && b2[q] == b[qq]);
            }
        }
        assert forall|y: usize| #[trigger] a2.contains(y) <==> b2.contains(y) by {
            if a2.contains(y) {
                let t = choose|t: int| 0 <= t < a2.len() && #[trigger] a2[t] == y;
                assert(a[t] == y);
                assert(y != x);
                assert(a.contains(y));
                assert(b.contains(y));
                let u = choose|u: int| 0 <= u < b.len() && #[trigger] b[u] == y;
                assert(u != k);
                if u < k {
                    assert(b2[u] == y);
                } else {
                    assert(b2[u - 1] == y);
                }
            }
            if b2.contains(y) {
                let t = choose|t: int| 0 <= t < b2.len() && #[trigger] b2[t] == y;
                let tt = if t < k { t } else { t + 1 };
                assert(b[tt] == y);
                assert(tt != k);
                assert(y != x);
                assert(a.contains(y));
                let u = choose|u: int| 0 <= u < a.len() && #[trigger] a[u] == y;
                assert(u != a.len() - 1);
                assert(a2[u] == y);
            }
        }
        lemma_total_order_free(a2, b2, f);
        lemma_total_remove(b, k, f);
        assert(total(a, f) == plus(total(a2, f), f(x)));
        assert(total(b, f) == plus(total(b2, f), f(x)));
        assert(total(a, f) == total(b, f));
    }
}

/// The steering force depends only on which agents each neighbour list
/// holds, not on their order: lists without duplicates that hold the same
/// agents give the same force.
pub proof fn lemma_force_order_free(
    points: Seq<Point>,
    vels: Seq<Velocity>,
    t: Traits,
    i: int,
    a: (Seq<usize>, Seq<usize>, Seq<usize>),
    b: (Seq<usize>, Seq<usize>, Seq<usize>),
    target: Option<Point>,
)
    requires
        a.0.no_duplicates() && a.1.no_duplicates() && a.2.no_duplicates(),
        b.0.no_duplicates() && b.1.no_duplicates() && b.2.no_duplicates(),
        forall|x: usize| #[trigger] a.0.contains(x) <==> b.0.contains(x),
        forall|x: usize| #[trigger] a.1.contains(x) <==> b.1.contains(x),
        forall|x: usize| #[trigger] a.2.contains(x) <==> b.2.contains(x),
    ensures
        force_spec(points, vels, t, i, a.0, a.1, a.2, target) == force_spec(
            points,
            vels,
            t,
            i,
            b.0,
            b.1,
            b.2,
            target,
        ),
{
    lemma_sums_are_totals(points, vels, i, a.0);
    lemma_sums_are_totals(points, vels, i, b.0);
    lemma_sums_are_totals(points, vels, i, a.1);
    lemma_sums_are_totals(points, vels, i, b.1);
    lemma_sums_are_totals(points, vels, i, a.2);
    lemma_sums_are_totals(points, vels, i, b.2);
    lemma_total_order_free(a.0, b.0, separation_entry(points, i));
    lemma_total_order_free(a.1, b.1, alignment_entry(points, vels, i));
    lemma_total_order_free(a.2, b.2, cohesion_entry(points, i));
}

proof fn lemma_square_of_difference(p: int, q: int, r: int, s: int)
    ensures
        (p * q - r * s) * (p * q - r * s) == (p * p) * (q * q) + (r * r) * (s * s) - 2 * ((p * s) * (
        r * q)),
{
    assert((p * q - r * s) * (p * q - r * s) == (p * q) * (p * q) - 2 * ((p * q) * (r * s)) + (r
        * s) * (r * s)) by (nonlinear_arith);
    assert((p * q) * (p * q) == (p * p) * (q * q)) by (nonlinear_arith);
    assert((r * s) * (r * s) == (r * r) * (s * s)) by (nonlinear_arith);
    assert((p * q) * (r * s) == (p * s) * (r * q)) by (nonlinear_arith);
}

proof fn lemma_cauchy_schwarz(a: V3, b: V3)
    ensures
        (a.0 * b.0 + a.1 * b.1 + a.2 * b.2) * (a.0 * b.0 + a.1 * b.1 + a.2 * b.2) <= norm2(a) * norm2(b),
{
    let (x0, x1, x2) = a;
    let (y0, y1, y2) = b;
    let (s0, s1, s2) = (x0 * x0, x1 * x1, x2 * x2);
    let (t0, t1, t2) = (y0 * y0, y1 * y1, y2 * y2);
    let (d0, d1, d2) = (x0 * y0, x1 * y1, x2 * y2);
    assert((s0 + s1 + s2) * (t0 + t1 + t2) == s0 * t0 + s0 * t1 + s0 * t2 + s1 * t0 + s1 * t1 + s1
        * t2 + s2 * t0 + s2 * t1 + s2 * t2) by (nonlinear_arith);
    assert((d0 + d1 + d2) * (d0 + d1 + d2) == d0 * d0 + d1 * d1 + d2 * d2 + 2 * (d0 * d1) + 2 * (d0
        * d2) + 2 * (d1 * d2)) by (nonlinear_arith);
    assert(d0 * d0 == s0 * t0 && d1 * d1 == s1 * t1 && d2 * d2 == s2 * t2) by (nonlinear_arith)
        requires
            s0 == x0 * x0 && s1 == x1 * x1 && s2 == x2 * x2,
            t0 == y0 * y0 && t1 == y1 * y1 && t2 == y2 * y2,
            d0 == x0 * y0 && d1 == x1 * y1 && d2 == x2 * y2,
    ;
    lemma_square_of_difference(x0, y1, x1, y0);
    lemma_square_of_difference(x0, y2, x2, y0);
    lemma_square_of_difference(x1, y2, x2, y1);
    let u = x0 * y1 - x1 * y0;
    let v = x0 * y2 - x2 * y0;
    let w = x1 * y2 - x2 * y1;
    assert(u * u >= 0 && v * v >= 0 && w * w >= 0) by (nonlinear_arith);
    assert(x0 * y0 == d0 && x1 * y1 == d1 && x2 * y2 == d2);
    assert((x0 * y0) * (x1 * y1) == d0 * d1);
}

proof fn lemma_norm_triangle(a: V3, b: V3, x: int, y: int, k2: int)
    requires
        x >= 0,
        y >= 0,
        k2 > 0,
        norm2(a) * k2 <= x * x,
        norm2(b) * k2 <= y * y,
    ensures
        norm2(add3(a, b)) * k2 <= (x + y) * (x + y),
{
    let na = norm2(a);
    let nb = norm2(b);
    let dot = a.0 * b.0 + a.1 * b.1 + a.2 * b.2;
    lemma_cauchy_schwarz(a, b);
    assert(dot * dot <= na * nb);
    assert(na >= 0 && nb >= 0) by (nonlinear_arith)
        requires
            na == a.0 * a.0 + a.1 * a.1 + a.2 * a.2,
            nb == b.0 * b.0 + b.1 * b.1 + b.2 * b.2,
    ;
    let d = dot * k2;
    assert(d * d <= (x * y) * (x * y)) by (nonlinear_arith)
        requires
            d == dot * k2,
            dot * dot <= na * nb,
            na * k2 <= x * x,
            nb * k2 <= y * y,
            na >= 0,
            nb >= 0,
            k2 > 0,
    ;
    assert(d <= x * y) by (nonlinear_arith)
        requires
            d * d <= (x * y) * (x * y),
            x >= 0,
            y >= 0,
    ;
    assert(norm2(add3(a, b)) == na + nb + 2 * dot) by (nonlinear_arith)
        requires
            na == a.0 * a.0 + a.1 * a.1 + a.2 * a.2,
            nb == b.0 * b.0 + b.1 * b.1 + b.2 * b.2,
            dot == a.0 * b.0 + a.1 * b.1 + a.2 * b.2,
    ;
    assert(norm2(add3(a, b)) * k2 == na * k2 + nb * k2 + 2 * d) by (nonlinear_arith)
        requires
            norm2(add3(a, b)) == na + nb + 2 * dot,
            d == dot * k2,
    ;
    assert((x + y) * (x + y) == x * x + y * y + 2 * (x * y)) by (nonlinear_arith);
}

/// The bound on one behaviour's contribution, for the contributions as
/// `force_spec` forms them: zero when the behaviour has nothing to steer by.
proof fn lemma_part_bound(part: V3, dir: V3, vel: V3, t: Traits, weight: int, active: bool)
    requires
        weight >= 0,
        active ==> part == steer_spec(dir, vel, t.max_speed as int, t.max_force as int, weight),
        !active ==> part == zero3(),
    ensures
        norm2(part) * (WEIGHT_SCALE * WEIGHT_SCALE) <= (t.max_force * weight) * (t.max_force * weight),
{
    if active {
        lemma_contribution_bound(dir, vel, t.max_speed as int, t.max_force as int, weight);
    } else {
        assert((t.max_force * weight) * (t.max_force * weight) >= 0) by (nonlinear_arith);
    }
}

/// The total force is at most `max_force` times the sum of the weights of the
/// behaviours that apply (the targeting weight only with a target): its
/// squared length, in thousandths squared, stays within the square of that.
pub proof fn lemma_total_force_bound(
    points: Seq<Point>,
    vels: Seq<Velocity>,
    t: Traits,
    i: int,
    sep: Seq<usize>,
    align: Seq<usize>,
    coh: Seq<usize>,
    target: Option<Point>,
)
    ensures
        ({
            let wt: int = if target is Some { t.targeting as int } else { 0 };
            let m = t.max_force * (t.separation + t.alignment + t.cohesion + wt);
            norm2(force_spec(points, vels, t, i, sep, align, coh, target)) * (WEIGHT_SCALE
                * WEIGHT_SCALE) <= m * m
        }),
{
    let k2 = WEIGHT_SCALE * WEIGHT_SCALE;
    let mf = t.max_force as int;
    let wt: int = if target is Some { t.targeting as int } else { 0 };
    let vel = vview(vels[i]);
    let (ss, sc) = separation_sum(points, i, sep);
    let (as_, ac) = alignment_sum(points, vels, i, align);
    let (cs, cc) = cohesion_sum(points, i, coh);
    let ps = separation_force(points, vels, t, i, sep);
    let pa = alignment_force(points, vels, t, i, align);
    let pc = cohesion_force(points, vels, t, i, coh);
    let pt = target_force(points, vels, t, i, target);
    lemma_part_bound(ps, tdiv3(ss, sc), vel, t, t.separation as int, sc != 0);
    lemma_part_bound(pa, tdiv3(as_, ac), vel, t, t.alignment as int, ac != 0);
    lemma_part_bound(pc, sub3(tdiv3(cs, cc), pview(points[i])), vel, t, t.cohesion as int, cc != 0);
    match target {
        Some(g) => {
            lemma_part_bound(pt, sub3(pview(g), pview(points[i])), vel, t, t.targeting as int, true);
        },
        None => {
            lemma_part_bound(pt, zero3(), vel, t, 0, false);
        },
    }
    let (xs, xa, xc, xt) = (mf * t.separation, mf * t.alignment, mf * t.cohesion, mf * wt);
    assert(xs >= 0 && xa >= 0 && xc >= 0 && xt >= 0) by (nonlinear_arith)
        requires
            mf >= 0,
            wt >= 0,
            xs == mf * t.separation,
            xa == mf * t.alignment,
            xc == mf * t.cohesion,
            xt == mf * wt,
    ;
    lemma_norm_triangle(ps, pa, xs, xa, k2);
    lemma_norm_triangle(pc, pt, xc, xt, k2);
    lemma_norm_triangle(add3(ps, pa), add3(pc, pt), xs + xa, xc + xt, k2);
    assert(mf * (t.separation + t.alignment + t.cohesion + wt) == xs + xa + (xc + xt)) by (nonlinear_arith)
        requires
            xs == mf * t.separation,
            xa == mf * t.alignment,
            xc == mf * t.cohesion,
            xt == mf * wt,
    ;
}

} // verus!
