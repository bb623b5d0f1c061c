//! Uniform-grid spatial index: agent indices bucketed by the key of their cell.
use vstd::prelude::*;
use std::collections::HashMap;
use rustc_hash::FxBuildHasher;
use crate::grid::{
    Cell, Point, cell_key, cell_of, cell_of_spec, grid_radius, key_spec, ceil_div,
    lemma_axis_bits_near, lemma_close_points_close_cells, lemma_key_axes,
};
use crate::config::ConfigError;

verus! {

#[verifier::external_type_specification]
#[verifier::external_body]
pub struct ExFxBuildHasher(FxBuildHasher);

/// Buckets keyed by packed cell key, hashed with rustc-hash's `FxBuildHasher`.
pub type Buckets = HashMap<u64, Vec<usize>, FxBuildHasher>;

/// Relies on `HashMap::default` with rustc-hash's `FxBuildHasher`: a new map is empty.
#[verifier::external_body]
fn buckets_new() -> (r: Buckets)
    ensures
        r@.is_empty(),
{
    HashMap::default()
}

/// Relies on `HashMap::get` with rustc-hash's `FxBuildHasher`, whose hash of a
/// key is a fixed function of the key: the bucket stored under `key`, if any.
#[verifier::external_body]
fn buckets_get(m: &Buckets, key: u64) -> (r: Option<&Vec<usize>>)
    ensures
        match r {
            Some(b) => m@.contains_key(key) && *b == m@[key],
            None => !m@.contains_key(key),
        },
{
    m.get(&key)
}

/// Relies on `HashMap::insert` with rustc-hash's `FxBuildHasher`: the map
/// afterwards holds `bucket` under `key` and is otherwise unchanged.
#[verifier::external_body]
fn buckets_insert(m: &mut Buckets, key: u64, bucket: Vec<usize>)
    ensures
        final(m)@ == old(m)@.insert(key, bucket),
{
    m.insert(key, bucket);
}

/// Relies on `HashMap::remove` with rustc-hash's `FxBuildHasher`: takes out the
/// bucket stored under `key`, if any, and leaves the other keys alone.
#[verifier::external_body]
fn buckets_remove(m: &mut Buckets, key: u64) -> (r: Option<Vec<usize>>)
    ensures
        final(m)@ == old(m)@.remove(key),
        match r {
            Some(b) => old(m)@.contains_key(key) && b == old(m)@[key],
            None => !old(m)@.contains_key(key),
        },
{
    m.remove(&key)
}

/// Key of the cell that holds `p`.
pub open spec fn point_key(p: Point, cell_size: int) -> u64 {
    key_spec(cell_of_spec(p, cell_size))
}

/// The cell `c` moved by `(dx, dy, dz)`.
pub open spec fn shifted(c: Cell, dx: int, dy: int, dz: int) -> Cell {
    Cell { x: (c.x + dx) as i64, y: (c.y + dy) as i64, z: (c.z + dz) as i64 }
}

/// The offset `(dx, dy, dz)` lies in the box `[-g, g]² × [-gz, gz]` and reaches `key`.
pub open spec fn hits(c: Cell, g: int, gz: int, key: u64, dx: int, dy: int, dz: int) -> bool {
    &&& -g <= dx <= g
    &&& -g <= dy <= g
    &&& -gz <= dz <= gz
    &&& key_spec(shifted(c, dx, dy, dz)) == key
}

/// Some cell of the box around `c` has key `key`.
pub open spec fn box_reaches(c: Cell, g: int, gz: int, key: u64) -> bool {
    exists|dx: int, dy: int, dz: int| #[trigger] hits(c, g, gz, key, dx, dy, dz)
}

spec fn lex_before(dx: int, dy: int, dz: int, ex: int, ey: int, ez: int) -> bool {
    dx < ex || (dx == ex && (dy < ey || (dy == ey && dz < ez)))
}

/// Some cell of the box that comes before offset `(ex, ey, ez)` in scan order has key `key`.
spec fn covered(c: Cell, g: int, gz: int, key: u64, ex: int, ey: int, ez: int) -> bool {
    exists|dx: int, dy: int, dz: int|
        #[trigger] hits(c, g, gz, key, dx, dy, dz) && lex_before(dx, dy, dz, ex, ey, ez)
}

proof fn lemma_covered_step(c: Cell, g: int, gz: int, key: u64, ex: int, ey: int, ez: int)
    ensures
        covered(c, g, gz, key, ex, ey, ez + 1) == (covered(c, g, gz, key, ex, ey, ez) || hits(
            c,
            g,
            gz,
            key,
            ex,
            ey,
            ez,
        )),
{
    if covered(c, g, gz, key, ex, ey, ez + 1) {
        let (dx, dy, dz) = choose|dx: int, dy: int, dz: int|
            #[trigger] hits(c, g, gz, key, dx, dy, dz) && lex_before(dx, dy, dz, ex, ey, ez + 1);
        if !(dx == ex && dy == ey && dz == ez) {
            assert(lex_before(dx, dy, dz, ex, ey, ez));
        }
    }
    if covered(c, g, gz, key, ex, ey, ez) {
        let (dx, dy, dz) = choose|dx: int, dy: int, dz: int|
            #[trigger] hits(c, g, gz, key, dx, dy, dz) && lex_before(dx, dy, dz, ex, ey, ez);
        assert(lex_before(dx, dy, dz, ex, ey, ez + 1));
    }
    if hits(c, g, gz, key, ex, ey, ez) {
        assert(lex_before(ex, ey, ez, ex, ey, ez + 1));
    }
}

proof fn lemma_covered_row_end(c: Cell, g: int, gz: int, key: u64, ex: int, ey: int)
    requires
        0 <= gz,
    ensures
        covered(c, g, gz, key, ex, ey, gz + 1) == covered(c, g, gz, key, ex, ey + 1, -gz),
{
    if covered(c, g, gz, key, ex, ey, gz + 1) {
        let (dx, dy, dz) = choose|dx: int, dy: int, dz: int|
            #[trigger] hits(c, g, gz, key, dx, dy, dz) && lex_before(dx, dy, dz, ex, ey, gz + 1);
        assert(lex_before(dx, dy, dz, ex, ey + 1, -gz));
    }
    if covered(c, g, gz, key, ex, ey + 1, -gz) {
        let (dx, dy, dz) = choose|dx: int, dy: int, dz: int|
            #[trigger] hits(c, g, gz, key, dx, dy, dz) && lex_before(dx, dy, dz, ex, ey + 1, -gz);
        assert(lex_before(dx, dy, dz, ex, ey, gz + 1));
    }
}

proof fn lemma_covered_plane_end(c: Cell, g: int, gz: int, key: u64, ex: int)
    requires
        0 <= gz,
        0 <= g,
    ensures
        covered(c, g, gz, key, ex, g + 1, -gz) == covered(c, g, gz, key, ex + 1, -g, -gz),
{
    if covered(c, g, gz, key, ex, g + 1, -gz) {
        let (dx, dy, dz) = choose|dx: int, dy: int, dz: int|
            #[trigger] hits(c, g, gz, key, dx, dy, dz) && lex_before(dx, dy, dz, ex, g + 1, -gz);
        assert(lex_before(dx, dy, dz, ex + 1, -g, -gz));
    }
    if covered(c, g, gz, key, ex + 1, -g, -gz) {
        let (dx, dy, dz) = choose|dx: int, dy: int, dz: int|
            #[trigger] hits(c, g, gz, key, dx, dy, dz) && lex_before(dx, dy, dz, ex + 1, -g, -gz);
        assert(lex_before(dx, dy, dz, ex, g + 1, -gz));
    }
}

proof fn lemma_covered_start(c: Cell, g: int, gz: int, key: u64)
    requires
        0 <= gz,
        0 <= g,
    ensures
        !covered(c, g, gz, key, -g, -g, -gz),
        covered(c, g, gz, key, g + 1, -g, -gz) == box_reaches(c, g, gz, key),
{
    if covered(c, g, gz, key, g + 1, -g, -gz) {
        let (dx, dy, dz) = choose|dx: int, dy: int, dz: int|
            #[trigger] hits(c, g, gz, key, dx, dy, dz) && lex_before(dx, dy, dz, g + 1, -g, -gz);
        assert(hits(c, g, gz, key, dx, dy, dz));
    }
    if box_reaches(c, g, gz, key) {
        let (dx, dy, dz) = choose|dx: int, dy: int, dz: int|
            #[trigger] hits(c, g, gz, key, dx, dy, dz);
        assert(lex_before(dx, dy, dz, g + 1, -g, -gz));
    }
}

/// Appends `src` to `out`.
fn append_indices(out: &mut Vec<usize>, src: &Vec<usize>)
    ensures
        final(out)@ == old(out)@ + src@,
{
    let mut i: usize = 0;
    while i < src.len()
        invariant
            i <= src@.len(),
            out@ == old(out)@ + src@.take(i as int),
        decreases src@.len() - i,
    {
        out.push(src[i]);
        i += 1;
        proof {
            assert(src@.take(i as int) == src@.take(i - 1).push(src@[i - 1]));
        }
    }
    proof {
        assert(src@.take(src@.len() as int) == src@);
    }
}

/// Agents bucketed by the packed key of their grid cell.
///
/// A rebuild replaces the whole content; emptied buckets go to a pool and are
/// reused by later rebuilds.
pub struct SpatialIndex {
    cell_size: u32,
    buckets: Buckets,
    occupied: Vec<u64>,
    pool: Vec<Vec<usize>>,
    points: Ghost<Seq<Point>>,
}

impl SpatialIndex {
    /// The cell size the index was built with.
    pub closed spec fn spec_cell_size(&self) -> int {
        self.cell_size as int
    }

    /// The positions of the last rebuild, by agent index.
    pub closed spec fn points(&self) -> Seq<Point> {
        self.points@
    }

    /// Key of the cell of agent `j`.
    pub open spec fn agent_key(&self, j: int) -> u64 {
        point_key(self.points()[j], self.spec_cell_size())
    }

    /// Agent `j` lies in a cell of the box of half-width `ceil(radius / cell_size)`
    /// around the cell of `p` (flat in z when `planar`).
    pub open spec fn reaches(&self, p: Point, radius: int, planar: bool, j: int) -> bool {
        let g = ceil_div(radius, self.spec_cell_size());
        box_reaches(
            cell_of_spec(p, self.spec_cell_size()),
            g,
            if planar { 0 } else { g },
            self.agent_key(j),
        )
    }

    /// `s` holds exactly the agents that a query at `p` with `radius` reaches.
    pub open spec fn is_query_result(&self, p: Point, radius: int, planar: bool, s: Seq<usize>) -> bool {
        forall|j: usize|
            s.contains(j) <==> (j < self.points().len() && self.reaches(p, radius, planar, j as int))
    }

    /// The buckets hold agent `j` of `points` under the key of its cell, and nothing else.
    spec fn buckets_match(&self, points: Seq<Point>) -> bool {
        &&& forall|k: u64| #[trigger] self.buckets@.contains_key(k) <==> self.occupied@.contains(k)
        &&& forall|k: u64, j: usize|
            self.buckets@.contains_key(k) ==> (#[trigger] self.buckets@[k]@.contains(j) <==> (j
                < points.len() && point_key(points[j as int], self.cell_size as int) == k))
        &&& forall|j: int|
            0 <= j < points.len() ==> self.buckets@.contains_key(
                #[trigger] point_key(points[j], self.cell_size as int),
            )
        &&& forall|k: u64| #[trigger]
            self.buckets@.contains_key(k) ==> self.buckets@[k]@.no_duplicates()
    }

    spec fn pool_clear(&self) -> bool {
        forall|i: int| 0 <= i < self.pool@.len() ==> (#[trigger] self.pool@[i])@.len() == 0
    }

    /// The buckets hold exactly the agents of the last rebuild, each under the
    /// key of its cell; the pool holds only empty buckets.
    pub closed spec fn buckets_wf(&self) -> bool {
        &&& self.occupied@.no_duplicates()
        &&& self.buckets_match(self.points@)
        &&& self.pool_clear()
    }

    pub open spec fn wf(&self) -> bool {
        &&& self.spec_cell_size() > 0
        &&& self.buckets_wf()
    }

    /// An empty index with cells of `cell_size` units on each side; a zero size is refused.
    pub fn new(cell_size: u32) -> (r: Result<SpatialIndex, ConfigError>)
        ensures
            cell_size == 0 ==> r == Err::<SpatialIndex, ConfigError>(ConfigError::ZeroCellSize),
            cell_size > 0 ==> (r matches Ok(idx) && idx.wf() && idx.spec_cell_size()
                == cell_size && idx.points().len() == 0),
    {
        if cell_size == 0 {
            return Err(ConfigError::ZeroCellSize);
        }
        let idx = SpatialIndex {
            cell_size,
            buckets: buckets_new(),
            occupied: Vec::new(),
            pool: Vec::new(),
            points: Ghost(Seq::empty()),
        };
        assert(idx.buckets_match(Seq::empty()));
        Ok(idx)
    }

    /// The cell size the index was built with.
    pub fn cell_size(&self) -> (r: u32)
        ensures
            r == self.spec_cell_size(),
    {
        self.cell_size
    }

    /// Empties every bucket into the pool.
    fn release_buckets(&mut self)
        requires
            old(self).wf(),
        ensures
            final(self).cell_size == old(self).cell_size,
            final(self).buckets@.is_empty(),
            final(self).occupied@.len() == 0,
            final(self).pool_clear(),
    {
        let mut k: usize = 0;
        assert(self.occupied@.subrange(0, self.occupied@.len() as int) == self.occupied@);
        while k < self.occupied.len()
            invariant
                self.cell_size == old(self).cell_size,
                self.occupied@ == old(self).occupied@,
                self.occupied@.no_duplicates(),
                k <= self.occupied@.len(),
                forall|key: u64| #[trigger]
                    self.buckets@.contains_key(key) <==> self.occupied@.subrange(
                        k as int,
                        self.occupied@.len() as int,
                    ).contains(key),
                self.pool_clear(),
            decreases self.occupied@.len() - k,
        {
            let key = self.occupied[k];
            match buckets_remove(&mut self.buckets, key) {
                Some(mut b) => {
                    b.clear();
                    self.pool.push(b);
                },
                None => {},
            }
            k += 1;
            proof {
                let occ = self.occupied@;
                let after = occ.subrange(k as int, occ.len() as int);
                let here = occ.subrange(k - 1, occ.len() as int);
                assert forall|key2: u64| #[trigger]
                    self.buckets@.contains_key(key2) <==> after.contains(key2) by {
                    if after.contains(key2) {
                        let t = choose|t: int| 0 <= t < after.len() && #[trigger] after[t] == key2;
                        assert(occ[k + t] == key2);
                        assert(key2 != key);
                        assert(here[t + 1] == key2);
                    }
                    if here.contains(key2) && key2 != key {
                        let t = choose|t: int| 0 <= t < here.len() && #[trigger] here[t] == key2;
                        assert(t != 0);
                        assert(after[t - 1] == key2);
                    }
                }
            }
        }
        self.occupied.clear();
        proof {
            assert(self.buckets@.dom() =~= Set::empty());
        }
    }

    /// Replaces the content by `positions`: agent `j` goes into the bucket of
    /// the cell of `positions[j]`.
    pub fn rebuild(&mut self, positions: &Vec<Point>)
        requires
            old(self).wf(),
        ensures
            final(self).wf(),
            final(self).spec_cell_size() == old(self).spec_cell_size(),
            final(self).points() == positions@,
    {
        self.release_buckets();
        assert(self.buckets_match(Seq::empty()));
        let mut i: usize = 0;
        while i < positions.len()
            invariant
                self.cell_size == old(self).cell_size,
                self.cell_size > 0,
                i <= positions@.len(),
                self.occupied@.no_duplicates(),
                self.buckets_match(positions@.take(i as int)),
                self.pool_clear(),
            decreases positions@.len() - i,
        {
            let c = cell_of(&positions[i], self.cell_size);
            let key = cell_key(&c);
            let ghost before = self.buckets@;
            let ghost occ_before = self.occupied@;
            let ghost prev = positions@.take(i as int);
            let ghost next = positions@.take(i + 1);
            assert(next == prev.push(positions@[i as int]));
            assert(key == point_key(positions@[i as int], self.cell_size as int));
            match buckets_remove(&mut self.buckets, key) {
                Some(mut b) => {
                    b.push(i);
                    buckets_insert(&mut self.buckets, key, b);
                },
                None => {
                    let mut b = match self.pool.pop() {
                        Some(v) => v,
                        None => Vec::new(),
                    };
                    b.push(i);
                    buckets_insert(&mut self.buckets, key, b);
                    self.occupied.push(key);
                    proof {
                        assert(!before.contains_key(key));
                    }
                },
            }
            proof {
                assert(self.buckets@ == before.insert(key, self.buckets@[key]));
                assert(self.buckets@[key]@ =~= if before.contains_key(key) {
                    before[key]@.push(i)
                } else {
                    seq![i]
                });
                assert forall|k: u64, j: usize| self.buckets@.contains_key(k) implies (
                #[trigger] self.buckets@[k]@.contains(j) <==> (j < next.len() && point_key(
                    next[j as int],
                    self.cell_size as int,
                ) == k)) by {
                    if k == key && before.contains_key(key) {
                        if before[key]@.contains(j) {
                            assert(self.buckets@[k]@.contains(j)) by {
                                let t = choose|t: int|
                                    0 <= t < before[key]@.len() && before[key]@[t] == j;
                                assert(self.buckets@[k]@[t] == j);
                            }
                        }
                        if self.buckets@[k]@.contains(j) && j != i {
                            let t = choose|t: int|
                                0 <= t < self.buckets@[k]@.len() && self.buckets@[k]@[t] == j;
                            assert(t < before[key]@.len());
                            assert(before[key]@[t] == j);
                        }
                        assert(self.buckets@[k]@[before[key]@.len() as int] == i);
                    }
                    if k == key && !before.contains_key(key) {
                        assert(self.buckets@[k]@[0] == i);
                        assert forall|j2: usize| j2 < prev.len() implies point_key(
                            prev[j2 as int],
                            self.cell_size as int,
                        ) != key by {
                            assert(before.contains_key(
                                point_key(prev[j2 as int], self.cell_size as int),
                            ));
                        }
                    }
                }
                if before.contains_key(key) {
                    assert(!before[key]@.contains(i));
                }
                assert forall|k: u64| #[trigger]
                    self.buckets@.contains_key(k) implies self.buckets@[k]@.no_duplicates() by {
                    if k == key {
                        if before.contains_key(key) {
                            assert forall|a: int, b: int|
                                0 <= a < b < self.buckets@[k]@.len() implies self.buckets@[k]@[a]
                                != self.buckets@[k]@[b] by {
                                if b == before[key]@.len() {
                                    assert(before[key]@.contains(self.buckets@[k]@[a]));
                                }
                            }
                        }
                    }
                }
                assert forall|j: int| 0 <= j < next.len() implies self.buckets@.contains_key(
                    #[trigger] point_key(next[j], self.cell_size as int),
                ) by {
                    if j < prev.len() {
                        assert(before.contains_key(point_key(prev[j], self.cell_size as int)));
                    }
                }
                assert forall|k: u64| #[trigger]
                    self.buckets@.contains_key(k) <==> self.occupied@.contains(k) by {
                    if !before.contains_key(key) {
                        assert(self.occupied@ == occ_before.push(key));
                        if k == key {
                            assert(self.occupied@[occ_before.len() as int] == key);
                        } else {
                            if occ_before.contains(k) {
                                let t = choose|t: int|
                                    0 <= t < occ_before.len() && #[trigger] occ_before[t] == k;
                                assert(self.occupied@[t] == k);
                            }
                            if self.occupied@.contains(k) {
                                let t = choose|t: int|
                                    0 <= t < self.occupied@.len() && #[trigger] self.occupied@[t]
                                        == k;
                                assert(occ_before[t] == k);
                            }
                        }
                    }
                }
                assert forall|t: int| 0 <= t < self.pool@.len() implies (
                #[trigger] self.pool@[t])@.len() == 0 by {}
            }
            i += 1;
        }
        proof {
            assert(positions@.take(positions@.len() as int) == positions@);
        }
        self.points = Ghost(positions@);
    }

    /// Gathers the buckets of every cell of the box `[-g, g]² × [-gz, gz]`
    /// around `center`, each cell once, in scan order.
    fn collect_box(&self, center: Cell, g: i64, gz: i64) -> (r: Vec<usize>)
        requires
            self.wf(),
            0 <= gz <= g <= 0x1_0000_0000,
            -0x8000_0000 <= center.x < 0x8000_0000,
            -0x8000_0000 <= center.y < 0x8000_0000,
            -0x8000_0000 <= center.z < 0x8000_0000,
        ensures
            forall|j: usize| #[trigger]
                r@.contains(j) <==> (j < self.points().len() && box_reaches(
                    center,
                    g as int,
                    gz as int,
                    self.agent_key(j as int),
                )),
            g < 0x10_0000 ==> r@.no_duplicates(),
    {
        let mut out: Vec<usize> = Vec::new();
        let mut dx: i64 = -g;
        proof {
            assert forall|key: u64| !#[trigger] covered(center, g as int, gz as int, key, -g, -g, -gz) by {
                lemma_covered_start(center, g as int, gz as int, key);
            }
        }
        while dx <= g
            invariant
                self.wf(),
                0 <= gz <= g <= 0x1_0000_0000,
                -0x8000_0000 <= center.x < 0x8000_0000,
                -0x8000_0000 <= center.y < 0x8000_0000,
                -0x8000_0000 <= center.z < 0x8000_0000,
                -g <= dx <= g + 1,
                g < 0x10_0000 ==> out@.no_duplicates(),
                forall|j: usize| #[trigger]
                    out@.contains(j) <==> (j < self.points().len() && covered(
                        center,
                        g as int,
                        gz as int,
                        self.agent_key(j as int),
                        dx as int,
                        -g,
                        -gz,
                    )),
            decreases g + 1 - dx,
        {
            let mut dy: i64 = -g;
            while dy <= g
                invariant
                    self.wf(),
                    0 <= gz <= g <= 0x1_0000_0000,
                    -0x8000_0000 <= center.x < 0x8000_0000,
                    -0x8000_0000 <= center.y < 0x8000_0000,
                    -0x8000_0000 <= center.z < 0x8000_0000,
                    -g <= dx <= g,
                    -g <= dy <= g + 1,
                    g < 0x10_0000 ==> out@.no_duplicates(),
                    forall|j: usize| #[trigger]
                        out@.contains(j) <==> (j < self.points().len() && covered(
                            center,
                            g as int,
                            gz as int,
                            self.agent_key(j as int),
                            dx as int,
                            dy as int,
                            -gz,
                        )),
                decreases g + 1 - dy,
            {
                let mut dz: i64 = -gz;
                while dz <= gz
                    invariant
                        self.wf(),
                        0 <= gz <= g <= 0x1_0000_0000,
                        -0x8000_0000 <= center.x < 0x8000_0000,
                        -0x8000_0000 <= center.y < 0x8000_0000,
                        -0x8000_0000 <= center.z < 0x8000_0000,
                        -g <= dx <= g,
                        -g <= dy <= g,
                        -gz <= dz <= gz + 1,
                        g < 0x10_0000 ==> out@.no_duplicates(),
                        forall|j: usize| #[trigger]
                            out@.contains(j) <==> (j < self.points().len() && covered(
                                center,
                                g as int,
                                gz as int,
                                self.agent_key(j as int),
                                dx as int,
                                dy as int,
                                dz as int,
                            )),
                    decreases gz + 1 - dz,
                {
                    let cell = Cell { x: center.x + dx, y: center.y + dy, z: center.z + dz };
                    let key = cell_key(&cell);
                    let ghost prev = out@;
                    assert(cell == shifted(center, dx as int, dy as int, dz as int));
                    match buckets_get(&self.buckets, key) {
                        Some(bucket) => {
                            append_indices(&mut out, bucket);
                        },
                        None => {},
                    }
                    proof {
                        if g < 0x10_0000 && self.buckets@.contains_key(key) {
                            let b = self.buckets@[key]@;
                            assert forall|x: usize| #[trigger] b.contains(x) implies !prev.contains(x) by {
                                if prev.contains(x) {
                                    let k2 = self.agent_key(x as int);
                                    assert(k2 == key);
                                    assert(covered(center, g as int, gz as int, k2, dx as int, dy as int, dz as int));
                                    let (ex, ey, ez) = choose|ex: int, ey: int, ez: int|
                                        #[trigger] hits(center, g as int, gz as int, k2, ex, ey, ez)
                                            && lex_before(ex, ey, ez, dx as int, dy as int, dz as int);
                                    lemma_box_keys_distinct(center, g as int, gz as int, ex, ey, ez, dx as int, dy as int, dz as int);
                                }
                            }
                            lemma_concat_no_duplicates(prev, b);
                        }
                        assert forall|j: usize| #[trigger]
                            out@.contains(j) <==> (j < self.points().len() && covered(
                                center,
                                g as int,
                                gz as int,
                                self.agent_key(j as int),
                                dx as int,
                                dy as int,
                                dz + 1,
                            )) by {
                            lemma_covered_step(
                                center,
                                g as int,
                                gz as int,
                                self.agent_key(j as int),
                                dx as int,
                                dy as int,
                                dz as int,
                            );
                            if self.buckets@.contains_key(key) {
                                lemma_concat_contains(prev, self.buckets@[key]@, j);
                            } else if j < self.points().len() {
                                assert(self.buckets@.contains_key(self.agent_key(j as int)));
                            }
                        }
                    }
                    dz += 1;
                }
                proof {
                    assert forall|key: u64|
                        #[trigger] covered(center, g as int, gz as int, key, dx as int, dy as int, gz + 1)
                            == covered(center, g as int, gz as int, key, dx as int, dy + 1, -gz) by {
                        lemma_covered_row_end(center, g as int, gz as int, key, dx as int, dy as int);
                    }
                }
                dy += 1;
            }
            proof {
                assert forall|key: u64|
                    #[trigger] covered(center, g as int, gz as int, key, dx as int, g + 1, -gz) == covered(
                        center,
                        g as int,
                        gz as int,
                        key,
                        dx + 1,
                        -g,
                        -gz,
                    ) by {
                    lemma_covered_plane_end(center, g as int, gz as int, key, dx as int);
                }
            }
            dx += 1;
        }
        proof {
            assert forall|key: u64|
                #[trigger] covered(center, g as int, gz as int, key, g + 1, -g, -gz) == box_reaches(
                    center,
                    g as int,
                    gz as int,
                    key,
                ) by {
                lemma_covered_start(center, g as int, gz as int, key);
            }
        }
        out
    }

    /// The agents of every cell of the cube of half-width `ceil(radius / cell_size)`
    /// cells around the cell of `p`: a superset of the agents within `radius`
    /// of `p`, which the caller filters by true distance.
    pub fn query_neighbors(&self, p: &Point, radius: u32) -> (r: Vec<usize>)
        requires
            self.wf(),
        ensures
            self.is_query_result(*p, radius as int, false, r@),
            ceil_div(radius as int, self.spec_cell_size()) < 0x10_0000 ==> r@.no_duplicates(),
    {
        let g = grid_radius(radius, self.cell_size);
        let center = cell_of(p, self.cell_size);
        self.collect_box(center, g, g)
    }

    /// As `query_neighbors`, over the square of cells in the plane of `p`'s cell.
    pub fn query_neighbors_2d(&self, p: &Point, radius: u32) -> (r: Vec<usize>)
        requires
            self.wf(),
        ensures
            self.is_query_result(*p, radius as int, true, r@),
            ceil_div(radius as int, self.spec_cell_size()) < 0x10_0000 ==> r@.no_duplicates(),
    {
        let g = grid_radius(radius, self.cell_size);
        let center = cell_of(p, self.cell_size);
        self.collect_box(center, g, 0)
    }
}

proof fn lemma_concat_no_duplicates(a: Seq<usize>, b: Seq<usize>)
    requires
        a.no_duplicates(),
        b.no_duplicates(),
        forall|x: usize| #[trigger] b.contains(x) ==> !a.contains(x),
    ensures
        (a + b).no_duplicates(),
{
    let s = a + b;
    assert forall|p: int, q: int| 0 <= p < q < s.len() implies s[p] != s[q] by {
        if p < a.len() && q >= a.len() {
            assert(b[q - a.len()] == s[q]);
            assert(b.contains(s[q]));
            assert(a[p] == s[p]);
        } else if p >= a.len() {
            assert(b[p - a.len()] == s[p] && b[q - a.len()] == s[q]);
        }
    }
}

/// Distinct cells of a box narrower than `2^21` cells on each axis have distinct keys.
proof fn lemma_box_keys_distinct(c: Cell, g: int, gz: int, ex: int, ey: int, ez: int, dx: int, dy: int, dz: int)
    requires
        0 <= gz <= g < 0x10_0000,
        -0x8000_0000 <= c.x < 0x8000_0000,
        -0x8000_0000 <= c.y < 0x8000_0000,
        -0x8000_0000 <= c.z < 0x8000_0000,
        -g <= ex <= g && -g <= ey <= g && -gz <= ez <= gz,
        -g <= dx <= g && -g <= dy <= g && -gz <= dz <= gz,
        key_spec(shifted(c, ex, ey, ez)) == key_spec(shifted(c, dx, dy, dz)),
    ensures
        ex == dx && ey == dy && ez == dz,
{
    let a = shifted(c, ex, ey, ez);
    let b = shifted(c, dx, dy, dz);
    lemma_key_axes(a, b);
    lemma_axis_bits_near(a.x, b.x);
    lemma_axis_bits_near(a.y, b.y);
    lemma_axis_bits_near(a.z, b.z);
}

proof fn lemma_concat_contains(a: Seq<usize>, b: Seq<usize>, x: usize)
    ensures
        (a + b).contains(x) <==> (a.contains(x) || b.contains(x)),
{
    if (a + b).contains(x) {
        let t = choose|t: int| 0 <= t < (a + b).len() && #[trigger] (a + b)[t] == x;
        if t >= a.len() {
            assert(b[t - a.len()] == x);
        }
    }
    if a.contains(x) {
        let t = choose|t: int| 0 <= t < a.len() && #[trigger] a[t] == x;
        assert((a + b)[t] == x);
    }
    if b.contains(x) {
        let t = choose|t: int| 0 <= t < b.len() && #[trigger] b[t] == x;
        assert((a + b)[a.len() + t] == x);
    }
}

/// Squared Euclidean distance between two points.
pub open spec fn dist2(p: Point, q: Point) -> int {
    (p.x - q.x) * (p.x - q.x) + (p.y - q.y) * (p.y - q.y) + (p.z - q.z) * (p.z - q.z)
}

proof fn lemma_square_bound(d: int, r: int)
    requires
        r >= 0,
        d * d <= r * r,
    ensures
        -r <= d <= r,
{
    assert(-r <= d <= r) by (nonlinear_arith)
        requires
            r >= 0,
            d * d <= r * r,
    ;
}

proof fn lemma_offset_reaches(idx: &SpatialIndex, p: Point, q: Point, j: int, radius: int, planar: bool)
    requires
        idx.wf(),
        0 <= j < idx.points().len(),
        idx.points()[j] == q,
        radius >= 0,
        -radius <= q.x - p.x <= radius,
        -radius <= q.y - p.y <= radius,
        -radius <= q.z - p.z <= radius,
        planar ==> cell_of_spec(p, idx.spec_cell_size()).z == cell_of_spec(q, idx.spec_cell_size()).z,
    ensures
        idx.reaches(p, radius, planar, j),
{
    let size = idx.spec_cell_size();
    let g = ceil_div(radius, size);
    let cp = cell_of_spec(p, size);
    let cq = cell_of_spec(q, size);
    lemma_close_points_close_cells(p.x as int, q.x as int, radius, size);
    lemma_close_points_close_cells(p.y as int, q.y as int, radius, size);
    lemma_close_points_close_cells(p.z as int, q.z as int, radius, size);
    crate::grid::lemma_floor_div_bounds(p.x as int, size);
    crate::grid::lemma_floor_div_bounds(p.y as int, size);
    crate::grid::lemma_floor_div_bounds(p.z as int, size);
    crate::grid::lemma_floor_div_bounds(q.x as int, size);
    crate::grid::lemma_floor_div_bounds(q.y as int, size);
    crate::grid::lemma_floor_div_bounds(q.z as int, size);
    let (dx, dy, dz) = (cq.x - cp.x, cq.y - cp.y, cq.z - cp.z);
    assert(shifted(cp, dx, dy, dz) == cq);
    assert(hits(cp, g, if planar { 0 } else { g }, idx.agent_key(j), dx, dy, dz));
}

/// Queries never miss a close agent: when two indexed agents lie within
/// `radius` of each other, a query of that radius at either one's position
/// reaches the other.
pub proof fn lemma_query_finds_close_agents(idx: &SpatialIndex, a: int, b: int, radius: int)
    requires
        idx.wf(),
        0 <= a < idx.points().len(),
        0 <= b < idx.points().len(),
        0 <= radius,
        dist2(idx.points()[a], idx.points()[b]) <= radius * radius,
    ensures
        idx.reaches(idx.points()[a], radius, false, b),
        idx.reaches(idx.points()[b], radius, false, a),
{
    let p = idx.points()[a];
    let q = idx.points()[b];
    let (dx, dy, dz) = (q.x - p.x, q.y - p.y, q.z - p.z);
    assert(dx * dx <= radius * radius && dy * dy <= radius * radius && dz * dz <= radius * radius)
        by (nonlinear_arith)
        requires
            (p.x - q.x) * (p.x - q.x) + (p.y - q.y) * (p.y - q.y) + (p.z - q.z) * (p.z - q.z)
                <= radius * radius,
            dx == q.x - p.x,
            dy == q.y - p.y,
            dz == q.z - p.z,
    ;
    lemma_square_bound(dx, radius);
    lemma_square_bound(dy, radius);
    lemma_square_bound(dz, radius);
    lemma_offset_reaches(idx, p, q, b, radius, false);
    lemma_offset_reaches(idx, q, p, a, radius, false);
}

/// The planar query never misses a close agent whose cell shares the querying
/// agent's z layer.
pub proof fn lemma_query_2d_finds_close_agents(idx: &SpatialIndex, a: int, b: int, radius: int)
    requires
        idx.wf(),
        0 <= a < idx.points().len(),
        0 <= b < idx.points().len(),
        0 <= radius,
        dist2(idx.points()[a], idx.points()[b]) <= radius * radius,
        cell_of_spec(idx.points()[a], idx.spec_cell_size()).z == cell_of_spec(
            idx.points()[b],
            idx.spec_cell_size(),
        ).z,
    ensures
        idx.reaches(idx.points()[a], radius, true, b),
        idx.reaches(idx.points()[b], radius, true, a),
{
    let p = idx.points()[a];
    let q = idx.points()[b];
    let (dx, dy, dz) = (q.x - p.x, q.y - p.y, q.z - p.z);
    assert(dx * dx <= radius * radius && dy * dy <= radius * radius && dz * dz <= radius * radius)
        by (nonlinear_arith)
        requires
            (p.x - q.x) * (p.x - q.x) + (p.y - q.y) * (p.y - q.y) + (p.z - q.z) * (p.z - q.z)
                <= radius * radius,
            dx == q.x - p.x,
            dy == q.y - p.y,
            dz == q.z - p.z,
    ;
    lemma_square_bound(dx, radius);
    lemma_square_bound(dy, radius);
    lemma_square_bound(dz, radius);
    lemma_offset_reaches(idx, p, q, b, radius, true);
    lemma_offset_reaches(idx, q, p, a, radius, true);
}

/// Two queries with the same arguments on an index that was not rebuilt in
/// between return the same set of agents.
pub proof fn lemma_query_repeatable(
    idx: &SpatialIndex,
    p: Point,
    radius: int,
    planar: bool,
    first: Seq<usize>,
    second: Seq<usize>,
)
    requires
        idx.is_query_result(p, radius, planar, first),
        idx.is_query_result(p, radius, planar, second),
    ensures
        first.to_set() == second.to_set(),
{
    assert(first.to_set() =~= second.to_set());
}

} // verus!
