//! Fixed-capacity structure-of-arrays store of the agents of one tick.
use vstd::prelude::*;
use crate::config::ConfigError;
use crate::grid::Point;

verus! {

/// One agent of a snapshot: its position, its velocity and its behaviour traits.
#[derive(Debug)]
pub struct Agent<V, T> {
    pub position: Point,
    pub velocity: V,
    pub traits: T,
}

/// Per-slot positions, velocities, traits and force accumulators, each in an
/// array of its own. The arrays are allocated once for the capacity and
/// refilled on every load.
pub struct AgentStore<V, T, F> {
    positions: Vec<Point>,
    velocities: Vec<V>,
    traits: Vec<T>,
    forces: Vec<F>,
    zero: F,
    capacity: usize,
}

pub open spec fn min(a: int, b: int) -> int {
    if a <= b { a } else { b }
}

impl<V: Copy, T: Copy, F: Copy> AgentStore<V, T, F> {
    pub closed spec fn spec_capacity(&self) -> int {
        self.capacity as int
    }

    /// The value a force accumulator holds before any contribution.
    pub closed spec fn zero(&self) -> F {
        self.zero
    }

    pub closed spec fn positions(&self) -> Seq<Point> {
        self.positions@
    }

    pub closed spec fn velocities(&self) -> Seq<V> {
        self.velocities@
    }

    pub closed spec fn traits(&self) -> Seq<T> {
        self.traits@
    }

    pub closed spec fn forces(&self) -> Seq<F> {
        self.forces@
    }

    pub open spec fn spec_count(&self) -> int {
        self.positions().len() as int
    }

    /// Every array holds one entry per loaded agent, within the capacity.
    pub open spec fn wf(&self) -> bool {
        &&& 0 < self.spec_capacity()
        &&& self.positions().len() <= self.spec_capacity()
        &&& self.velocities().len() == self.positions().len()
        &&& self.traits().len() == self.positions().len()
        &&& self.forces().len() == self.positions().len()
    }

    /// An empty store for up to `capacity` agents whose force accumulators
    /// start at `zero`; a zero capacity is refused.
    pub fn with_capacity(capacity: usize, zero: F) -> (r: Result<Self, ConfigError>)
        ensures
            capacity == 0 ==> r matches Err(ConfigError::ZeroCapacity),
            capacity > 0 ==> (r matches Ok(s) && s.wf() && s.spec_capacity() == capacity
                && s.zero() == zero && s.spec_count() == 0),
    {
        if capacity == 0 {
            return Err(ConfigError::ZeroCapacity);
        }
        Ok(AgentStore {
            positions: Vec::with_capacity(capacity),
            velocities: Vec::with_capacity(capacity),
            traits: Vec::with_capacity(capacity),
            forces: Vec::with_capacity(capacity),
            zero,
            capacity,
        })
    }

    /// Copies the first `capacity` agents of `snapshot` in order, drops the
    /// rest, and resets every loaded force accumulator to zero.
    pub fn load(&mut self, snapshot: &Vec<Agent<V, T>>)
        requires
            old(self).wf(),
        ensures
            final(self).wf(),
            final(self).spec_capacity() == old(self).spec_capacity(),
            final(self).zero() == old(self).zero(),
            final(self).spec_count() == min(snapshot@.len() as int, old(self).spec_capacity()),
            forall|i: int|
                0 <= i < final(self).spec_count() ==> #[trigger] final(self).positions()[i]
                    == snapshot@[i].position,
            forall|i: int|
                0 <= i < final(self).spec_count() ==> #[trigger] final(self).velocities()[i]
                    == snapshot@[i].velocity,
            forall|i: int|
                0 <= i < final(self).spec_count() ==> #[trigger] final(self).traits()[i]
                    == snapshot@[i].traits,
            forall|i: int|
                0 <= i < final(self).spec_count() ==> #[trigger] final(self).forces()[i]
                    == old(self).zero(),
    {
        self.positions.clear();
        self.velocities.clear();
        self.traits.clear();
        self.forces.clear();
        let n: usize = if snapshot.len() < self.capacity {
            snapshot.len()
        } else {
            self.capacity
        };
        let mut i: usize = 0;
        while i < n
            invariant
                n == min(snapshot@.len() as int, self.capacity as int),
                self.capacity == old(self).capacity,
                self.zero == old(self).zero,
                0 < self.capacity,
                i <= n,
                self.positions@.len() == i,
                self.velocities@.len() == i,
                self.traits@.len() == i,
                self.forces@.len() == i,
                forall|k: int| 0 <= k < i ==> #[trigger] self.positions@[k] == snapshot@[k].position,
                forall|k: int| 0 <= k < i ==> #[trigger] self.velocities@[k] == snapshot@[k].velocity,
                forall|k: int| 0 <= k < i ==> #[trigger] self.traits@[k] == snapshot@[k].traits,
                forall|k: int| 0 <= k < i ==> #[trigger] self.forces@[k] == self.zero,
            decreases n - i,
        {
            let agent = &snapshot[i];
            self.positions.push(agent.position);
            self.velocities.push(agent.velocity);
            self.traits.push(agent.traits);
            self.forces.push(self.zero);
            i += 1;
        }
    }

    /// Empties the store; the arrays keep their allocation.
    pub fn clear(&mut self)
        requires
            old(self).wf(),
        ensures
            final(self).wf(),
            final(self).spec_count() == 0,
            final(self).spec_capacity() == old(self).spec_capacity(),
            final(self).zero() == old(self).zero(),
    {
        self.positions.clear();
        self.velocities.clear();
        self.traits.clear();
        self.forces.clear();
    }

    /// Appends one agent with a zero force when there is room; an agent
    /// beyond the capacity is dropped. Returns whether it was added.
    pub fn add_boid(&mut self, agent: &Agent<V, T>) -> (added: bool)
        requires
            old(self).wf(),
        ensures
            final(self).wf(),
            added == (old(self).spec_count() < old(self).spec_capacity()),
            final(self).spec_capacity() == old(self).spec_capacity(),
            final(self).zero() == old(self).zero(),
            added ==> {
                &&& final(self).positions() == old(self).positions().push(agent.position)
                &&& final(self).velocities() == old(self).velocities().push(agent.velocity)
                &&& final(self).traits() == old(self).traits().push(agent.traits)
                &&& final(self).forces() == old(self).forces().push(old(self).zero())
            },
            !added ==> *final(self) == *old(self),
    {
        if self.positions.len() >= self.capacity {
            return false;
        }
        self.positions.push(agent.position);
        self.velocities.push(agent.velocity);
        self.traits.push(agent.traits);
        self.forces.push(self.zero);
        true
    }

    /// Number of agents loaded.
    pub fn count(&self) -> (r: usize)
        requires
            self.wf(),
        ensures
            r == self.spec_count(),
    {
        self.positions.len()
    }

    /// Maximum number of agents per load.
    pub fn capacity(&self) -> (r: usize)
        ensures
            r == self.spec_capacity(),
    {
        self.capacity
    }

    /// The loaded positions, by slot.
    pub fn positions_vec(&self) -> (r: &Vec<Point>)
        ensures
            r@ == self.positions(),
    {
        &self.positions
    }

    /// The loaded velocities, by slot.
    pub fn velocities_vec(&self) -> (r: &Vec<V>)
        ensures
            r@ == self.velocities(),
    {
        &self.velocities
    }

    pub fn get_position(&self, i: usize) -> (r: Point)
        requires
            self.wf(),
            i < self.spec_count(),
        ensures
            r == self.positions()[i as int],
    {
        self.positions[i]
    }

    pub fn get_velocity(&self, i: usize) -> (r: V)
        requires
            self.wf(),
            i < self.spec_count(),
        ensures
            r == self.velocities()[i as int],
    {
        self.velocities[i]
    }

    pub fn get_traits(&self, i: usize) -> (r: T)
        requires
            self.wf(),
            i < self.spec_count(),
        ensures
            r == self.traits()[i as int],
    {
        self.traits[i]
    }

    pub fn get_force(&self, i: usize) -> (r: F)
        requires
            self.wf(),
            i < self.spec_count(),
        ensures
            r == self.forces()[i as int],
    {
        self.forces[i]
    }

    /// Writes the force of slot `i` and leaves every other slot alone.
    pub fn set_force(&mut self, i: usize, force: F)
        requires
            old(self).wf(),
            i < old(self).spec_count(),
        ensures
            final(self).wf(),
            final(self).forces() == old(self).forces().update(i as int, force),
            final(self).positions() == old(self).positions(),
            final(self).velocities() == old(self).velocities(),
            final(self).traits() == old(self).traits(),
            final(self).spec_capacity() == old(self).spec_capacity(),
            final(self).zero() == old(self).zero(),
    {
        self.forces.set(i, force);
    }

    /// The accumulated forces in snapshot order, one per loaded agent.
    pub fn store(&self) -> (r: Vec<F>)
        requires
            self.wf(),
        ensures
            r@ == self.forces(),
            r@.len() == self.spec_count(),
    {
        let mut out: Vec<F> = Vec::with_capacity(self.forces.len());
        let mut i: usize = 0;
        while i < self.forces.len()
            invariant
                self.wf(),
                i <= self.forces@.len(),
                out@ == self.forces@.take(i as int),
            decreases self.forces@.len() - i,
        {
            out.push(self.forces[i]);
            i += 1;
            proof {
                assert(self.forces@.take(i as int) == self.forces@.take(i - 1).push(
                    self.forces@[i - 1],
                ));
            }
        }
        proof {
            assert(self.forces@.take(self.forces@.len() as int) == self.forces@);
        }
        out
    }
}

/// After a load of a snapshot of `n <= capacity` agents, the store hands back
/// exactly `n` forces.
pub proof fn lemma_output_matches_input<V: Copy, T: Copy, F: Copy>(s: &AgentStore<V, T, F>, n: int)
    requires
        s.wf(),
        0 <= n <= s.spec_capacity(),
        s.spec_count() == min(n, s.spec_capacity()),
    ensures
        s.forces().len() == n,
{
}

} // verus!
