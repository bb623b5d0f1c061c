//! The per-tick engine: one agent store and one spatial index, rebuilt
//! together from each snapshot; the neighbour lists and steering force of
//! every agent.
use vstd::prelude::*;
use crate::config::ConfigError;
use crate::fixed::norm2;
use crate::grid::{Point, cell_of_spec, lemma_ceil_div_bounds};
use crate::neighbors::{
    FlockPolicy, NeighborSets, counts_for, query_radius, lemma_select_no_duplicates, lemma_selection_exact,
    select_neighbors,
};
use crate::spatial::{SpatialIndex, lemma_query_2d_finds_close_agents, lemma_query_finds_close_agents};
use crate::steering::{
    Force, Traits, Velocity, WEIGHT_SCALE, fview, force_spec, lemma_force_order_free,
    lemma_no_neighbors_no_force, lemma_total_force_bound,
    steering_force, zero3,
};
use crate::store::{Agent, AgentStore, min};

verus! {

/// The agents of the current tick and the index over their positions.
pub struct FlockEngine {
    store: AgentStore<Velocity, Traits, Force>,
    index: SpatialIndex,
}

impl FlockEngine {
    pub closed spec fn agents_view(&self) -> AgentStore<Velocity, Traits, Force> {
        self.store
    }

    pub closed spec fn index_view(&self) -> SpatialIndex {
        self.index
    }

    /// The loaded positions, by slot.
    pub open spec fn points(&self) -> Seq<Point> {
        self.agents_view().positions()
    }

    pub open spec fn cell_size(&self) -> int {
        self.index_view().spec_cell_size()
    }

    /// Agents `i` and `j` lie in the same z layer of grid cells.
    pub open spec fn same_layer(&self, i: int, j: int) -> bool {
        cell_of_spec(self.points()[i], self.cell_size()).z == cell_of_spec(
            self.points()[j],
            self.cell_size(),
        ).z
    }

    /// `a` is a neighbour list of agent `i` under `threshold`, each agent at
    /// most once: in space, exactly the agents that count; in the plane,
    /// exactly the agents that count and that the planar query of `radius`
    /// around agent `i` reaches.
    pub open spec fn selects(&self, i: int, planar: bool, a: Seq<usize>, threshold: int, radius: int) -> bool {
        &&& a.no_duplicates()
        &&& if planar {
            forall|j: usize| #[trigger]
                a.contains(j) <==> (counts_for(self.points(), i, j as int, threshold)
                    && self.index_view().reaches(self.points()[i], radius, true, j as int))
        } else {
            forall|j: usize| #[trigger] a.contains(j) <==> counts_for(self.points(), i, j as int, threshold)
        }
    }

    /// `f` is the steering force of agent `i` under `policy`, computed from
    /// neighbour lists that the spatial query and the thresholds select.
    pub open spec fn is_force_of(&self, policy: FlockPolicy, i: int, planar: bool, f: Force) -> bool {
        exists|a: Seq<usize>, b: Seq<usize>, c: Seq<usize>|
            #![trigger force_spec(self.points(), self.agents_view().velocities(), self.agents_view().traits()[i], i, a, b, c, policy.spec_target())]
            self.selects(i, planar, a, policy.spec_separation(), query_radius(policy)) && self.selects(i, planar, b, policy.spec_alignment(), query_radius(policy))
                && self.selects(i, planar, c, policy.spec_cohesion(), query_radius(policy)) && fview(f) == force_spec(
                self.points(),
                self.agents_view().velocities(),
                self.agents_view().traits()[i],
                i,
                a,
                b,
                c,
                policy.spec_target(),
            )
    }

    pub closed spec fn wf(&self) -> bool {
        &&& self.store.wf()
        &&& self.index.wf()
        &&& self.index.points() == self.store.positions()
    }

    /// An engine for up to `capacity` agents per tick over cells of
    /// `cell_size` units; a zero capacity or cell size is refused.
    pub fn new(capacity: usize, cell_size: u32) -> (r: Result<Self, ConfigError>)
        ensures
            capacity == 0 ==> r matches Err(ConfigError::ZeroCapacity),
            capacity > 0 && cell_size == 0 ==> r matches Err(ConfigError::ZeroCellSize),
            capacity > 0 && cell_size > 0 ==> (r matches Ok(e) && e.wf()
                && e.agents_view().spec_capacity() == capacity && fview(e.agents_view().zero())
                == zero3() && e.cell_size() == cell_size && e.points().len() == 0),
    {
        let store = match AgentStore::with_capacity(capacity, Force { x: 0, y: 0, z: 0 }) {
            Ok(s) => s,
            Err(e) => return Err(e),
        };
        let index = match SpatialIndex::new(cell_size) {
            Ok(i) => i,
            Err(e) => return Err(e),
        };
        assert(index.points() =~= store.positions());
        Ok(FlockEngine { store, index })
    }

    /// Loads a snapshot (the first `capacity` agents, forces reset to zero)
    /// and rebuilds the index over the loaded positions.
    pub fn load_boids(&mut self, snapshot: &Vec<Agent<Velocity, Traits>>)
        requires
            old(self).wf(),
        ensures
            final(self).wf(),
            final(self).cell_size() == old(self).cell_size(),
            final(self).agents_view().spec_capacity() == old(self).agents_view().spec_capacity(),
            final(self).agents_view().zero() == old(self).agents_view().zero(),
            final(self).points().len() == min(
                snapshot@.len() as int,
                old(self).agents_view().spec_capacity(),
            ),
            forall|i: int|
                0 <= i < final(self).points().len() ==> #[trigger] final(self).points()[i]
                    == snapshot@[i].position,
            forall|i: int|
                0 <= i < final(self).points().len() ==> #[trigger] final(self).agents_view().velocities()[i] == snapshot@[i].velocity,
            forall|i: int|
                0 <= i < final(self).points().len() ==> #[trigger] final(self).agents_view().traits()[i] == snapshot@[i].traits,
            forall|i: int|
                0 <= i < final(self).points().len() ==> #[trigger] final(self).agents_view().forces()[i] == old(self).agents_view().zero(),
    {
        self.store.load(snapshot);
        self.index.rebuild(self.store.positions_vec());
    }

    /// The agent store of the current tick.
    pub fn agents(&self) -> (r: &AgentStore<Velocity, Traits, Force>)
        ensures
            *r == self.agents_view(),
    {
        &self.store
    }

    /// The spatial index of the current tick.
    pub fn index(&self) -> (r: &SpatialIndex)
        ensures
            *r == self.index_view(),
    {
        &self.index
    }

    /// Number of agents loaded.
    pub fn count(&self) -> (r: usize)
        requires
            self.wf(),
        ensures
            r == self.points().len(),
    {
        self.store.count()
    }

    /// The neighbours of agent `i` for each behaviour: exactly the other
    /// agents, not coincident with `i`, strictly inside that behaviour's
    /// squared threshold.
    pub fn neighbors(&self, policy: &FlockPolicy, i: usize) -> (r: NeighborSets)
        requires
            self.wf(),
            i < self.points().len(),
        ensures
            forall|j: usize| #[trigger]
                r.separation@.contains(j) <==> counts_for(
                    self.points(),
                    i as int,
                    j as int,
                    policy.spec_separation(),
                ),
            forall|j: usize| #[trigger]
                r.alignment@.contains(j) <==> counts_for(
                    self.points(),
                    i as int,
                    j as int,
                    policy.spec_alignment(),
                ),
            forall|j: usize| #[trigger]
                r.cohesion@.contains(j) <==> counts_for(
                    self.points(),
                    i as int,
                    j as int,
                    policy.spec_cohesion(),
                ),
            r.separation@.no_duplicates(),
            r.alignment@.no_duplicates(),
            r.cohesion@.no_duplicates(),
    {
        let radius = policy.interaction_radius();
        let p = self.store.get_position(i);
        let cands = self.index.query_neighbors(&p, radius);
        proof {
            lemma_ceil_div_bounds(radius as int, self.cell_size());
            lemma_select_no_duplicates(cands@, self.points(), i as int, policy.spec_separation());
            lemma_select_no_duplicates(cands@, self.points(), i as int, policy.spec_alignment());
            lemma_select_no_duplicates(cands@, self.points(), i as int, policy.spec_cohesion());
        }
        let r = select_neighbors(self.store.positions_vec(), i, &cands, policy);
        proof {
            let pts = self.points();
            assert forall|j: usize, t: int|
                t <= policy.max_threshold() && #[trigger] counts_for(pts, i as int, j as int, t)
                    implies cands@.contains(j) by {
                assert(radius * radius >= policy.max_threshold());
                lemma_query_finds_close_agents(&self.index, i as int, j as int, radius as int);
            }
            assert forall|j: usize| #[trigger]
                r.separation@.contains(j) <==> counts_for(pts, i as int, j as int, policy.spec_separation()) by {
                lemma_selection_exact(cands@, pts, i as int, policy.spec_separation(), j);
            }
            assert forall|j: usize| #[trigger]
                r.alignment@.contains(j) <==> counts_for(pts, i as int, j as int, policy.spec_alignment()) by {
                lemma_selection_exact(cands@, pts, i as int, policy.spec_alignment(), j);
            }
            assert forall|j: usize| #[trigger]
                r.cohesion@.contains(j) <==> counts_for(pts, i as int, j as int, policy.spec_cohesion()) by {
                lemma_selection_exact(cands@, pts, i as int, policy.spec_cohesion(), j);
            }
        }
        r
    }

    /// The planar variant of `neighbors`: the grid is scanned in the z layer of
    /// agent `i` only. The neighbours are exactly the agents that count for
    /// the behaviour and that the planar query reaches; among them, every
    /// agent that counts and shares that layer.
    pub fn neighbors_2d(&self, policy: &FlockPolicy, i: usize) -> (r: NeighborSets)
        requires
            self.wf(),
            i < self.points().len(),
        ensures
            forall|j: usize| #[trigger]
                r.separation@.contains(j) <==> (counts_for(
                    self.points(),
                    i as int,
                    j as int,
                    policy.spec_separation(),
                ) && self.index_view().reaches(self.points()[i as int], query_radius(*policy), true, j as int)),
            forall|j: usize| #[trigger]
                r.alignment@.contains(j) <==> (counts_for(
                    self.points(),
                    i as int,
                    j as int,
                    policy.spec_alignment(),
                ) && self.index_view().reaches(self.points()[i as int], query_radius(*policy), true, j as int)),
            forall|j: usize| #[trigger]
                r.cohesion@.contains(j) <==> (counts_for(
                    self.points(),
                    i as int,
                    j as int,
                    policy.spec_cohesion(),
                ) && self.index_view().reaches(self.points()[i as int], query_radius(*policy), true, j as int)),
            forall|j: usize|
                self.same_layer(i as int, j as int) && #[trigger] counts_for(
                    self.points(),
                    i as int,
                    j as int,
                    policy.spec_separation(),
                ) ==> r.separation@.contains(j),
            forall|j: usize|
                self.same_layer(i as int, j as int) && #[trigger] counts_for(
                    self.points(),
                    i as int,
                    j as int,
                    policy.spec_alignment(),
                ) ==> r.alignment@.contains(j),
            forall|j: usize|
                self.same_layer(i as int, j as int) && #[trigger] counts_for(
                    self.points(),
                    i as int,
                    j as int,
                    policy.spec_cohesion(),
                ) ==> r.cohesion@.contains(j),
            r.separation@.no_duplicates(),
            r.alignment@.no_duplicates(),
            r.cohesion@.no_duplicates(),
    {
        let radius = policy.interaction_radius();
        let p = self.store.get_position(i);
        let cands = self.index.query_neighbors_2d(&p, radius);
        proof {
            lemma_ceil_div_bounds(radius as int, self.cell_size());
            lemma_select_no_duplicates(cands@, self.points(), i as int, policy.spec_separation());
            lemma_select_no_duplicates(cands@, self.points(), i as int, policy.spec_alignment());
            lemma_select_no_duplicates(cands@, self.points(), i as int, policy.spec_cohesion());
        }
        let r = select_neighbors(self.store.positions_vec(), i, &cands, policy);
        proof {
            let pts = self.points();
            assert forall|j: usize, t: int|
                t <= policy.max_threshold() && self.same_layer(i as int, j as int)
                    && #[trigger] counts_for(pts, i as int, j as int, t) implies cands@.contains(j) by {
                assert(radius * radius >= policy.max_threshold());
                lemma_query_2d_finds_close_agents(&self.index, i as int, j as int, radius as int);
            }
            assert forall|j: usize| #[trigger]
                r.separation@.contains(j) <==> (counts_for(pts, i as int, j as int, policy.spec_separation())
                    && self.index_view().reaches(pts[i as int], query_radius(*policy), true, j as int)) by {
                lemma_selection_exact(cands@, pts, i as int, policy.spec_separation(), j);
            }
            assert forall|j: usize| #[trigger]
                r.alignment@.contains(j) <==> (counts_for(pts, i as int, j as int, policy.spec_alignment())
                    && self.index_view().reaches(pts[i as int], query_radius(*policy), true, j as int)) by {
                lemma_selection_exact(cands@, pts, i as int, policy.spec_alignment(), j);
            }
            assert forall|j: usize| #[trigger]
                r.cohesion@.contains(j) <==> (counts_for(pts, i as int, j as int, policy.spec_cohesion())
                    && self.index_view().reaches(pts[i as int], query_radius(*policy), true, j as int)) by {
                lemma_selection_exact(cands@, pts, i as int, policy.spec_cohesion(), j);
            }
            assert forall|j: usize|
                self.same_layer(i as int, j as int) && #[trigger] counts_for(pts, i as int, j as int, policy.spec_separation())
                    implies r.separation@.contains(j) by {
                lemma_selection_exact(cands@, pts, i as int, policy.spec_separation(), j);
            }
            assert forall|j: usize|
                self.same_layer(i as int, j as int) && #[trigger] counts_for(pts, i as int, j as int, policy.spec_alignment())
                    implies r.alignment@.contains(j) by {
                lemma_selection_exact(cands@, pts, i as int, policy.spec_alignment(), j);
            }
            assert forall|j: usize|
                self.same_layer(i as int, j as int) && #[trigger] counts_for(pts, i as int, j as int, policy.spec_cohesion())
                    implies r.cohesion@.contains(j) by {
                lemma_selection_exact(cands@, pts, i as int, policy.spec_cohesion(), j);
            }
        }
        r
    }

    /// The steering force of agent `i` for this tick.
    pub fn force_of(&self, policy: &FlockPolicy, i: usize, planar: bool) -> (r: Force)
        requires
            self.wf(),
            i < self.points().len(),
        ensures
            self.is_force_of(*policy, i as int, planar, r),
    {
        let sets = if planar {
            self.neighbors_2d(policy, i)
        } else {
            self.neighbors(policy, i)
        };
        let r = steering_force(
            self.store.positions_vec(),
            self.store.velocities_vec(),
            &self.store.get_traits(i),
            i,
            &sets,
            policy.target(),
        );
        proof {
            let (a, b, c) = (sets.separation@, sets.alignment@, sets.cohesion@);
            assert(self.selects(i as int, planar, a, policy.spec_separation(), query_radius(*policy)));
            assert(self.selects(i as int, planar, b, policy.spec_alignment(), query_radius(*policy)));
            assert(self.selects(i as int, planar, c, policy.spec_cohesion(), query_radius(*policy)));
            assert(fview(r) == force_spec(
                self.points(),
                self.agents_view().velocities(),
                self.agents_view().traits()[i as int],
                i as int,
                a,
                b,
                c,
                policy.spec_target(),
            ));
        }
        r
    }

    /// Computes and writes the steering force of every loaded agent, one
    /// after the other.
    pub fn compute_forces(&mut self, policy: &FlockPolicy, planar: bool)
        requires
            old(self).wf(),
        ensures
            final(self).wf(),
            final(self).points() == old(self).points(),
            final(self).agents_view().velocities() == old(self).agents_view().velocities(),
            final(self).agents_view().traits() == old(self).agents_view().traits(),
            final(self).cell_size() == old(self).cell_size(),
            final(self).agents_view().forces().len() == final(self).points().len(),
            forall|i: int|
                0 <= i < final(self).points().len() ==> #[trigger] final(self).is_force_of(
                    *policy,
                    i,
                    planar,
                    final(self).agents_view().forces()[i],
                ),
    {
        let n = self.count();
        let mut i: usize = 0;
        while i < n
            invariant
                self.wf(),
                n == self.points().len(),
                i <= n,
                self.points() == old(self).points(),
                self.agents_view().velocities() == old(self).agents_view().velocities(),
                self.agents_view().traits() == old(self).agents_view().traits(),
                self.cell_size() == old(self).cell_size(),
                self.index_view() == old(self).index_view(),
                forall|k: int|
                    0 <= k < i ==> #[trigger] self.is_force_of(
                        *policy,
                        k,
                        planar,
                        self.agents_view().forces()[k],
                    ),
            decreases n - i,
        {
            let f = self.force_of(policy, i, planar);
            let ghost before = *self;
            self.set_force(i, f);
            proof {
                assert forall|k: int| 0 <= k < i + 1 implies #[trigger] self.is_force_of(
                    *policy,
                    k,
                    planar,
                    self.agents_view().forces()[k],
                ) by {
                    if k < i {
                        assert(self.agents_view().forces()[k] == before.agents_view().forces()[k]);
                    }
                    assert(before.is_force_of(*policy, k, planar, self.agents_view().forces()[k]));
                    lemma_same_agents_same_force(before, *self, *policy, k, planar, self.agents_view().forces()[k]);
                }
            }
            i += 1;
        }
    }

    /// One whole tick: loads the snapshot, rebuilds the index, computes every
    /// force and returns them in snapshot order, one per loaded agent.
    pub fn tick(&mut self, snapshot: &Vec<Agent<Velocity, Traits>>, policy: &FlockPolicy, planar: bool) -> (r: Vec<Force>)
        requires
            old(self).wf(),
        ensures
            final(self).wf(),
            r@.len() == min(snapshot@.len() as int, old(self).agents_view().spec_capacity()),
            r@ == final(self).agents_view().forces(),
            final(self).points().len() == r@.len(),
            final(self).agents_view().velocities().len() == r@.len(),
            final(self).agents_view().traits().len() == r@.len(),
            forall|i: int|
                0 <= i < r@.len() ==> #[trigger] final(self).points()[i] == snapshot@[i].position,
            forall|i: int|
                0 <= i < r@.len() ==> #[trigger] final(self).agents_view().velocities()[i]
                    == snapshot@[i].velocity,
            forall|i: int|
                0 <= i < r@.len() ==> #[trigger] final(self).agents_view().traits()[i]
                    == snapshot@[i].traits,
            forall|i: int|
                0 <= i < r@.len() ==> #[trigger] final(self).is_force_of(*policy, i, planar, r@[i]),
    {
        self.load_boids(snapshot);
        self.compute_forces(policy, planar);
        self.store_forces()
    }

    /// Writes the force of agent `i`.
    pub fn set_force(&mut self, i: usize, force: Force)
        requires
            old(self).wf(),
            i < old(self).points().len(),
        ensures
            final(self).wf(),
            final(self).agents_view().forces() == old(self).agents_view().forces().update(
                i as int,
                force,
            ),
            final(self).points() == old(self).points(),
            final(self).agents_view().velocities() == old(self).agents_view().velocities(),
            final(self).agents_view().traits() == old(self).agents_view().traits(),
            final(self).cell_size() == old(self).cell_size(),
            final(self).index_view() == old(self).index_view(),
    {
        self.store.set_force(i, force);
    }

    /// The forces of the tick, in snapshot order.
    pub fn store_forces(&self) -> (r: Vec<Force>)
        requires
            self.wf(),
        ensures
            r@ == self.agents_view().forces(),
            r@.len() == self.points().len(),
    {
        self.store.store()
    }
}

proof fn lemma_same_agents_same_force(a: FlockEngine, b: FlockEngine, policy: FlockPolicy, i: int, planar: bool, f: Force)
    requires
        a.points() == b.points(),
        a.agents_view().velocities() == b.agents_view().velocities(),
        a.agents_view().traits() == b.agents_view().traits(),
        a.index_view() == b.index_view(),
        a.is_force_of(policy, i, planar, f),
    ensures
        b.is_force_of(policy, i, planar, f),
{
    let (x, y, z) = choose|x: Seq<usize>, y: Seq<usize>, z: Seq<usize>|
        #![trigger force_spec(a.points(), a.agents_view().velocities(), a.agents_view().traits()[i], i, x, y, z, policy.spec_target())]
        a.selects(i, planar, x, policy.spec_separation(), query_radius(policy)) && a.selects(i, planar, y, policy.spec_alignment(), query_radius(policy))
            && a.selects(i, planar, z, policy.spec_cohesion(), query_radius(policy)) && fview(f) == force_spec(
            a.points(),
            a.agents_view().velocities(),
            a.agents_view().traits()[i],
            i,
            x,
            y,
            z,
            policy.spec_target(),
        );
    assert(b.selects(i, planar, x, policy.spec_separation(), query_radius(policy)));
    assert(b.selects(i, planar, y, policy.spec_alignment(), query_radius(policy)));
    assert(b.selects(i, planar, z, policy.spec_cohesion(), query_radius(policy)));
}

proof fn lemma_empty_selection(e: FlockEngine, i: int, planar: bool, a: Seq<usize>, threshold: int, radius: int)
    requires
        e.selects(i, planar, a, threshold, radius),
        forall|j: usize| !#[trigger] counts_for(e.points(), i, j as int, threshold),
    ensures
        a.len() == 0,
{
    if a.len() > 0 {
        assert(a.contains(a[0]));
    }
}

/// An agent with no other agent inside any of its thresholds, under a policy
/// without a target, gets a zero force.
pub proof fn lemma_lone_agent_zero_force(e: FlockEngine, policy: FlockPolicy, i: int, planar: bool, f: Force)
    requires
        e.is_force_of(policy, i, planar, f),
        policy.spec_target() is None,
        forall|j: usize| !#[trigger] counts_for(e.points(), i, j as int, policy.spec_separation()),
        forall|j: usize| !#[trigger] counts_for(e.points(), i, j as int, policy.spec_alignment()),
        forall|j: usize| !#[trigger] counts_for(e.points(), i, j as int, policy.spec_cohesion()),
    ensures
        fview(f) == zero3(),
{
    let (x, y, z) = choose|x: Seq<usize>, y: Seq<usize>, z: Seq<usize>|
        #![trigger force_spec(e.points(), e.agents_view().velocities(), e.agents_view().traits()[i], i, x, y, z, policy.spec_target())]
        e.selects(i, planar, x, policy.spec_separation(), query_radius(policy)) && e.selects(i, planar, y, policy.spec_alignment(), query_radius(policy))
            && e.selects(i, planar, z, policy.spec_cohesion(), query_radius(policy)) && fview(f) == force_spec(
            e.points(),
            e.agents_view().velocities(),
            e.agents_view().traits()[i],
            i,
            x,
            y,
            z,
            policy.spec_target(),
        );
    lemma_empty_selection(e, i, planar, x, policy.spec_separation(), query_radius(policy));
    lemma_empty_selection(e, i, planar, y, policy.spec_alignment(), query_radius(policy));
    lemma_empty_selection(e, i, planar, z, policy.spec_cohesion(), query_radius(policy));
    lemma_no_neighbors_no_force(
        e.points(),
        e.agents_view().velocities(),
        e.agents_view().traits()[i],
        i,
        x,
        y,
        z,
    );
}

/// The force of an agent is determined by the agents alone: two engines
/// (or one engine at two times) holding the same positions, velocities,
/// traits and cell size give agent `i` the same force, whatever order its
/// neighbour lists came in.
pub proof fn lemma_force_determined(
    e1: FlockEngine,
    e2: FlockEngine,
    policy: FlockPolicy,
    i: int,
    planar: bool,
    f1: Force,
    f2: Force,
)
    requires
        e1.wf(),
        e2.wf(),
        e1.points() == e2.points(),
        e1.agents_view().velocities() == e2.agents_view().velocities(),
        e1.agents_view().traits() == e2.agents_view().traits(),
        e1.cell_size() == e2.cell_size(),
        e1.is_force_of(policy, i, planar, f1),
        e2.is_force_of(policy, i, planar, f2),
    ensures
        f1 == f2,
{
    let rad = query_radius(policy);
    let (a1, b1, c1) = choose|x: Seq<usize>, y: Seq<usize>, z: Seq<usize>|
        #![trigger force_spec(e1.points(), e1.agents_view().velocities(), e1.agents_view().traits()[i], i, x, y, z, policy.spec_target())]
        e1.selects(i, planar, x, policy.spec_separation(), rad) && e1.selects(i, planar, y, policy.spec_alignment(), rad)
            && e1.selects(i, planar, z, policy.spec_cohesion(), rad) && fview(f1) == force_spec(
            e1.points(),
            e1.agents_view().velocities(),
            e1.agents_view().traits()[i],
            i,
            x,
            y,
            z,
            policy.spec_target(),
        );
    let (a2, b2, c2) = choose|x: Seq<usize>, y: Seq<usize>, z: Seq<usize>|
        #![trigger force_spec(e2.points(), e2.agents_view().velocities(), e2.agents_view().traits()[i], i, x, y, z, policy.spec_target())]
        e2.selects(i, planar, x, policy.spec_separation(), rad) && e2.selects(i, planar, y, policy.spec_alignment(), rad)
            && e2.selects(i, planar, z, policy.spec_cohesion(), rad) && fview(f2) == force_spec(
            e2.points(),
            e2.agents_view().velocities(),
            e2.agents_view().traits()[i],
            i,
            x,
            y,
            z,
            policy.spec_target(),
        );
    assert(e1.index_view().points() == e2.index_view().points());
    assert(e1.index_view().spec_cell_size() == e2.index_view().spec_cell_size());
    assert forall|j: usize|
        #[trigger] e1.index_view().reaches(e1.points()[i], rad, true, j as int) == e2.index_view().reaches(
            e2.points()[i],
            rad,
            true,
            j as int,
        ) by {}
    assert forall|x: usize| #[trigger] a1.contains(x) <==> a2.contains(x) by {
        assert(e1.index_view().reaches(e1.points()[i], rad, true, x as int) == e2.index_view().reaches(
            e2.points()[i], rad, true, x as int));
    }
    assert forall|x: usize| #[trigger] b1.contains(x) <==> b2.contains(x) by {
        assert(e1.index_view().reaches(e1.points()[i], rad, true, x as int) == e2.index_view().reaches(
            e2.points()[i], rad, true, x as int));
    }
    assert forall|x: usize| #[trigger] c1.contains(x) <==> c2.contains(x) by {
        assert(e1.index_view().reaches(e1.points()[i], rad, true, x as int) == e2.index_view().reaches(
            e2.points()[i], rad, true, x as int));
    }
    lemma_force_order_free(
        e1.points(),
        e1.agents_view().velocities(),
        e1.agents_view().traits()[i],
        i,
        (a1, b1, c1),
        (a2, b2, c2),
        policy.spec_target(),
    );
    assert(fview(f1) == fview(f2));
}

/// However the slots of a tick are split into chunks and in whatever order
/// they are computed, the forces come out the same: any two force lists
/// that give every loaded agent its steering force are equal. In particular
/// a reused engine and a fresh one, loaded with the same snapshot, agree.
pub proof fn lemma_forces_determined(
    e1: FlockEngine,
    e2: FlockEngine,
    policy: FlockPolicy,
    planar: bool,
    fs1: Seq<Force>,
    fs2: Seq<Force>,
)
    requires
        e1.wf(),
        e2.wf(),
        e1.points() == e2.points(),
        e1.agents_view().velocities() == e2.agents_view().velocities(),
        e1.agents_view().traits() == e2.agents_view().traits(),
        e1.cell_size() == e2.cell_size(),
        fs1.len() == e1.points().len(),
        fs2.len() == e2.points().len(),
        forall|i: int| 0 <= i < fs1.len() ==> #[trigger] e1.is_force_of(policy, i, planar, fs1[i]),
        forall|i: int| 0 <= i < fs2.len() ==> #[trigger] e2.is_force_of(policy, i, planar, fs2[i]),
    ensures
        fs1 == fs2,
{
    assert forall|i: int| 0 <= i < fs1.len() implies fs1[i] == fs2[i] by {
        assert(e1.is_force_of(policy, i, planar, fs1[i]));
        assert(e2.is_force_of(policy, i, planar, fs2[i]));
        lemma_force_determined(e1, e2, policy, i, planar, fs1[i], fs2[i]);
    }
    assert(fs1 =~= fs2);
}

/// Every force of a tick is at most the agent's `max_force` times the sum of
/// the weights of its behaviours that apply (targeting only with a target):
/// its squared length, in thousandths squared, stays within the square of that.
pub proof fn lemma_force_bound(e: FlockEngine, policy: FlockPolicy, i: int, planar: bool, f: Force)
    requires
        e.is_force_of(policy, i, planar, f),
    ensures
        ({
            let t = e.agents_view().traits()[i];
            let wt: int = if policy.spec_target() is Some { t.targeting as int } else { 0 };
            let m = t.max_force * (t.separation + t.alignment + t.cohesion + wt);
            norm2(fview(f)) * (WEIGHT_SCALE * WEIGHT_SCALE) <= m * m
        }),
{
    let rad = query_radius(policy);
    let (x, y, z) = choose|x: Seq<usize>, y: Seq<usize>, z: Seq<usize>|
        #![trigger force_spec(e.points(), e.agents_view().velocities(), e.agents_view().traits()[i], i, x, y, z, policy.spec_target())]
        e.selects(i, planar, x, policy.spec_separation(), rad) && e.selects(i, planar, y, policy.spec_alignment(), rad)
            && e.selects(i, planar, z, policy.spec_cohesion(), rad) && fview(f) == force_spec(
            e.points(),
            e.agents_view().velocities(),
            e.agents_view().traits()[i],
            i,
            x,
            y,
            z,
            policy.spec_target(),
        );
    lemma_total_force_bound(
        e.points(),
        e.agents_view().velocities(),
        e.agents_view().traits()[i],
        i,
        x,
        y,
        z,
        policy.spec_target(),
    );
}

} // verus!
