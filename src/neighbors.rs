//! Per-invocation flocking policy and the selection of the neighbours that
//! feed each steering behaviour.
use vstd::prelude::*;
use crate::config::ConfigError;
use crate::grid::Point;
use crate::fixed::{ceil_sqrt_wide, csqrt, is_ceil_sqrt};
use crate::spatial::dist2;

verus! {

/// Squared distance below which a neighbour counts as coincident and is skipped.
pub const MIN_DIST_SQ: i128 = 1;

/// The three squared interaction thresholds of a batch, in squared position
/// units, and the target point shared by all agents, if any.
#[derive(Clone, Copy, Debug, PartialEq, Eq, Structural)]
pub struct FlockPolicy {
    separation: u32,
    alignment: u32,
    cohesion: u32,
    target: Option<Point>,
}

impl FlockPolicy {
    pub closed spec fn spec_separation(&self) -> int {
        self.separation as int
    }

    pub closed spec fn spec_alignment(&self) -> int {
        self.alignment as int
    }

    pub closed spec fn spec_cohesion(&self) -> int {
        self.cohesion as int
    }

    pub closed spec fn spec_target(&self) -> Option<Point> {
        self.target
    }

    /// The largest of the three thresholds.
    pub open spec fn max_threshold(&self) -> int {
        let a = self.spec_separation();
        let b = self.spec_alignment();
        let c = self.spec_cohesion();
        if a >= b && a >= c {
            a
        } else if b >= c {
            b
        } else {
            c
        }
    }

    /// A policy from three squared thresholds; a zero threshold is refused.
    pub fn new(separation: u32, alignment: u32, cohesion: u32, target: Option<Point>) -> (r: Result<
        FlockPolicy,
        ConfigError,
    >)
        ensures
            (separation == 0 || alignment == 0 || cohesion == 0) ==> r matches Err(
                ConfigError::ZeroThreshold,
            ),
            (separation > 0 && alignment > 0 && cohesion > 0) ==> (r matches Ok(p) && p.spec_separation()
                == separation && p.spec_alignment() == alignment && p.spec_cohesion() == cohesion
                && p.spec_target() == target),
    {
        if separation == 0 || alignment == 0 || cohesion == 0 {
            return Err(ConfigError::ZeroThreshold);
        }
        Ok(FlockPolicy { separation, alignment, cohesion, target })
    }

    pub fn separation(&self) -> (r: u32)
        ensures
            r == self.spec_separation(),
    {
        self.separation
    }

    pub fn alignment(&self) -> (r: u32)
        ensures
            r == self.spec_alignment(),
    {
        self.alignment
    }

    pub fn cohesion(&self) -> (r: u32)
        ensures
            r == self.spec_cohesion(),
    {
        self.cohesion
    }

    pub fn target(&self) -> (r: Option<Point>)
        ensures
            r == self.spec_target(),
    {
        self.target
    }

    /// The radius that covers every threshold: the smallest `r` with
    /// `r * r >= max_threshold`.
    pub fn interaction_radius(&self) -> (r: u32)
        ensures
            is_ceil_sqrt(r as int, self.max_threshold()),
            r == query_radius(*self),
            r <= 0x1_0000,
    {
        let mut m = self.separation;
        if self.alignment > m {
            m = self.alignment;
        }
        if self.cohesion > m {
            m = self.cohesion;
        }
        ceil_sqrt(m)
    }
}

/// The radius of the spatial query behind a policy's neighbour lists: the
/// square root of its largest threshold, rounded up.
pub open spec fn query_radius(policy: FlockPolicy) -> int {
    csqrt(policy.max_threshold())
}

/// The smallest `r` with `r * r >= t`.
pub fn ceil_sqrt(t: u32) -> (r: u32)
    ensures
        is_ceil_sqrt(r as int, t as int),
        r == csqrt(t as int),
        r <= 0x1_0000,
{
    let r = ceil_sqrt_wide(t as u128);
    proof {
        assert(r <= 0x1_0000) by (nonlinear_arith)
            requires
                r == 0 || (r - 1) * (r - 1) < t,
                t <= 0xffff_ffff,
                r >= 0,
        ;
    }
    r as u32
}

/// Squared distance between two positions, exactly.
pub fn distance_sq(p: &Point, q: &Point) -> (r: i128)
    ensures
        r == dist2(*p, *q),
{
    let dx = p.x as i128 - q.x as i128;
    let dy = p.y as i128 - q.y as i128;
    let dz = p.z as i128 - q.z as i128;
    assert(dx * dx <= 0x1_0000_0000 * 0x1_0000_0000 && dy * dy <= 0x1_0000_0000 * 0x1_0000_0000
        && dz * dz <= 0x1_0000_0000 * 0x1_0000_0000) by (nonlinear_arith)
        requires
            -0x1_0000_0000 <= dx <= 0x1_0000_0000,
            -0x1_0000_0000 <= dy <= 0x1_0000_0000,
            -0x1_0000_0000 <= dz <= 0x1_0000_0000,
    ;
    assert(dx * dx >= 0 && dy * dy >= 0 && dz * dz >= 0) by (nonlinear_arith);
    dx * dx + dy * dy + dz * dz
}

/// Candidate `j` counts for agent `i` under `threshold`: another agent, not
/// coincident with `i`, strictly closer than the threshold.
pub open spec fn counts_for(points: Seq<Point>, i: int, j: int, threshold: int) -> bool {
    &&& 0 <= j < points.len()
    &&& j != i
    &&& MIN_DIST_SQ <= dist2(points[i], points[j])
    &&& dist2(points[i], points[j]) < threshold
}

/// The candidates that count for agent `i` under `threshold`, in candidate order.
pub open spec fn select(cands: Seq<usize>, points: Seq<Point>, i: int, threshold: int) -> Seq<usize>
    decreases cands.len(),
{
    if cands.len() == 0 {
        Seq::empty()
    } else {
        let rest = select(cands.drop_last(), points, i, threshold);
        if counts_for(points, i, cands.last() as int, threshold) {
            rest.push(cands.last())
        } else {
            rest
        }
    }
}

/// The neighbours of one agent that feed each behaviour.
#[derive(Debug)]
pub struct NeighborSets {
    pub separation: Vec<usize>,
    pub alignment: Vec<usize>,
    pub cohesion: Vec<usize>,
}

/// Splits the candidates of agent `i` into the neighbours of each behaviour:
/// a candidate that is `i` itself, or coincident with it, feeds none.
pub fn select_neighbors(
    points: &Vec<Point>,
    i: usize,
    candidates: &Vec<usize>,
    policy: &FlockPolicy,
) -> (r: NeighborSets)
    requires
        i < points@.len(),
    ensures
        r.separation@ == select(candidates@, points@, i as int, policy.spec_separation()),
        r.alignment@ == select(candidates@, points@, i as int, policy.spec_alignment()),
        r.cohesion@ == select(candidates@, points@, i as int, policy.spec_cohesion()),
{
    let mut sets = NeighborSets { separation: Vec::new(), alignment: Vec::new(), cohesion: Vec::new() };
    let p = points[i];
    let mut k: usize = 0;
    while k < candidates.len()
        invariant
            i < points@.len(),
            p == points@[i as int],
            k <= candidates@.len(),
            sets.separation@ == select(candidates@.take(k as int), points@, i as int, policy.spec_separation()),
            sets.alignment@ == select(candidates@.take(k as int), points@, i as int, policy.spec_alignment()),
            sets.cohesion@ == select(candidates@.take(k as int), points@, i as int, policy.spec_cohesion()),
        decreases candidates@.len() - k,
    {
        let j = candidates[k];
        proof {
            let next = candidates@.take(k + 1);
            assert(next.drop_last() == candidates@.take(k as int));
            assert(next.last() == j);
        }
        if j < points.len() && j != i {
            let d = distance_sq(&p, &points[j]);
            if MIN_DIST_SQ <= d {
                if d < policy.separation as i128 {
                    sets.separation.push(j);
                }
                if d < policy.alignment as i128 {
                    sets.alignment.push(j);
                }
                if d < policy.cohesion as i128 {
                    sets.cohesion.push(j);
                }
            }
        }
        k += 1;
    }
    proof {
        assert(candidates@.take(candidates@.len() as int) == candidates@);
    }
    sets
}

proof fn lemma_select_member(cands: Seq<usize>, points: Seq<Point>, i: int, threshold: int, j: usize)
    ensures
        select(cands, points, i, threshold).contains(j) <==> (cands.contains(j) && counts_for(
            points,
            i,
            j as int,
            threshold,
        )),
    decreases cands.len(),
{
    if cands.len() > 0 {
        let init = cands.drop_last();
        lemma_select_member(init, points, i, threshold, j);
        let rest = select(init, points, i, threshold);
        assert(cands == init.push(cands.last()));
        if cands.contains(j) && j != cands.last() {
            let t = choose|t: int| 0 <= t < cands.len() && #[trigger] cands[t] == j;
            assert(init[t] == j);
        }
        if init.contains(j) {
            let t = choose|t: int| 0 <= t < init.len() && #[trigger] init[t] == j;
            assert(cands[t] == j);
        }
        if counts_for(points, i, cands.last() as int, threshold) {
            assert(rest.push(cands.last())[rest.len() as int] == cands.last());
            if rest.contains(j) {
                let t = choose|t: int| 0 <= t < rest.len() && #[trigger] rest[t] == j;
                assert(rest.push(cands.last())[t] == j);
            }
            if rest.push(cands.last()).contains(j) && j != cands.last() {
                let t = choose|t: int|
                    0 <= t < rest.len() + 1 && #[trigger] rest.push(cands.last())[t] == j;
                assert(rest[t] == j);
            }
        }
    }
}

/// Selecting from a list without duplicates gives a list without duplicates.
pub proof fn lemma_select_no_duplicates(cands: Seq<usize>, points: Seq<Point>, i: int, threshold: int)
    requires
        cands.no_duplicates(),
    ensures
        select(cands, points, i, threshold).no_duplicates(),
    decreases cands.len(),
{
    if cands.len() > 0 {
        let init = cands.drop_last();
        let x = cands.last();
        assert(init.no_duplicates()) by {
            assert forall|p: int, q: int| 0 <= p < q < init.len() implies init[p] != init[q] by {
                assert(init[p] == cands[p] && init[q] == cands[q]);
            }
        }
        lemma_select_no_duplicates(init, points, i, threshold);
        let rest = select(init, points, i, threshold);
        if counts_for(points, i, x as int, threshold) {
            lemma_select_member(init, points, i, threshold, x);
            if init.contains(x) {
                let t = choose|t: int| 0 <= t < init.len() && #[trigger] init[t] == x;
                assert(cands[t] == cands[cands.len() - 1]);
            }
            assert forall|p: int, q: int| 0 <= p < q < rest.push(x).len() implies rest.push(x)[p]
                != rest.push(x)[q] by {
                if q == rest.len() {
                    assert(rest.contains(rest[p]));
                }
            }
        }
    }
}

/// A behaviour's neighbours are exactly the candidates that count for it: so
/// an agent never feeds its own behaviours, nor does any neighbour at its
/// very position.
pub proof fn lemma_selection_exact(
    cands: Seq<usize>,
    points: Seq<Point>,
    i: int,
    threshold: int,
    j: usize,
)
    requires
        0 <= i < points.len(),
    ensures
        select(cands, points, i, threshold).contains(j) <==> (cands.contains(j) && counts_for(
            points,
            i,
            j as int,
            threshold,
        )),
        select(cands, points, i, threshold).contains(j) ==> j != i && points[j as int] != points[i],
{
    lemma_select_member(cands, points, i, threshold, j);
    if select(cands, points, i, threshold).contains(j) && points[j as int] == points[i] {
        assert(dist2(points[i], points[j as int]) == 0);
    }
}

/// An agent with no candidate inside a threshold has no neighbour for that behaviour.
pub proof fn lemma_no_close_candidate(cands: Seq<usize>, points: Seq<Point>, i: int, threshold: int)
    requires
        forall|k: int| 0 <= k < cands.len() ==> !counts_for(points, i, #[trigger] cands[k] as int, threshold),
    ensures
        select(cands, points, i, threshold).len() == 0,
    decreases cands.len(),
{
    if cands.len() > 0 {
        let init = cands.drop_last();
        assert forall|k: int| 0 <= k < init.len() implies !counts_for(points, i, #[trigger] init[k] as int, threshold) by {
            assert(init[k] == cands[k]);
        }
        lemma_no_close_candidate(init, points, i, threshold);
        assert(!counts_for(points, i, cands[cands.len() - 1] as int, threshold));
    }
}

} // verus!
