//! Swarm topologies: star, ring and von Neumann grid.
use vstd::prelude::*;

verus! {

/// A swarm topology: which particles particle `i` listens to.
pub trait Topology {
    /// The inputs on which `neighbors(i, swarm_size)` runs without panicking
    /// or overflowing.
    spec fn neighbors_defined(&self, i: usize, swarm_size: usize) -> bool;

    /// The neighbour list of particle `i` in a swarm of `swarm_size`, in the
    /// order in which `neighbors` returns it.
    spec fn neighbor_seq(&self, i: usize, swarm_size: usize) -> Seq<usize>;

    /// Get the indices of neighbors for particle `i`.
    ///
    /// For a particle of the swarm (`i < swarm_size`) the list holds `i`
    /// itself, and every index in it is a particle of the swarm.
    fn neighbors(&self, i: usize, swarm_size: usize) -> (result: Vec<usize>)
        requires
            self.neighbors_defined(i, swarm_size),
        ensures
            result@ == self.neighbor_seq(i, swarm_size),
            i < swarm_size ==> result@.contains(i),
            i < swarm_size ==> forall|k: int| 0 <= k < result@.len() ==> #[trigger] result@[k] < swarm_size,
    ;

    /// Get the best particle in the neighborhood of particle `i`: the first
    /// neighbour, in the order of `neighbors`, whose fitness is lowest.
    /// `fitness[j]` is the best fitness of particle `j`, lower being better;
    /// the neighbour list must be non-empty and lie within the swarm, which it
    /// does for every particle `i < fitness.len()` (see `neighbors`).
    fn neighborhood_best(&self, fitness: &Vec<i64>, i: usize) -> (best: usize)
        requires
            self.neighbors_defined(i, fitness.len()),
            self.neighbor_seq(i, fitness.len() as usize).len() > 0,
            forall|m: int|
                0 <= m < self.neighbor_seq(i, fitness.len() as usize).len() ==> #[trigger] self.neighbor_seq(
                    i,
                    fitness.len() as usize,
                )[m] < fitness.len(),
        ensures
            is_first_min(self.neighbor_seq(i, fitness.len() as usize), fitness@, best),
    {
        let neighbors = self.neighbors(i, fitness.len());
        let ghost nb = neighbors@;
        let mut best_pos: usize = 0;
        let mut k: usize = 1;
        while k < neighbors.len()
            invariant
                nb == neighbors@,
                nb.len() > 0,
                forall|m: int| 0 <= m < nb.len() ==> #[trigger] nb[m] < fitness.len(),
                0 <= best_pos < k <= nb.len(),
                forall|m: int| 0 <= m < k ==> fitness@[nb[best_pos as int] as int] <= fitness@[#[trigger] nb[m] as int],
                forall|m: int| 0 <= m < best_pos ==> fitness@[#[trigger] nb[m] as int] > fitness@[nb[best_pos as int] as int],
            decreases nb.len() - k,
        {
            if fitness[neighbors[k]] < fitness[neighbors[best_pos]] {
                best_pos = k;
            }
            k = k + 1;
        }
        neighbors[best_pos]
    }
}

/// `best` is the first entry of `neighbors` whose `fitness` is lowest among
/// the entries of `neighbors`.
pub open spec fn is_first_min(neighbors: Seq<usize>, fitness: Seq<i64>, best: usize) -> bool {
    exists|k: int|
        0 <= k < neighbors.len() && #[trigger] neighbors[k] == best && (forall|m: int|
            0 <= m < neighbors.len() ==> fitness[best as int] <= fitness[#[trigger] neighbors[m] as int])
            && (forall|m: int| 0 <= m < k ==> fitness[#[trigger] neighbors[m] as int] > fitness[best as int])
}

/// The neighbourhood best is a neighbour, no neighbour has a lower fitness,
/// and every neighbour with the same fitness comes no earlier in the list;
/// so it is the one particle that `is_first_min` allows.
pub proof fn lemma_neighborhood_best_is_first_lowest(
    neighbors: Seq<usize>,
    fitness: Seq<i64>,
    best: usize,
    other: usize,
)
    requires
        is_first_min(neighbors, fitness, best),
    ensures
        neighbors.contains(best),
        forall|m: int|
            0 <= m < neighbors.len() ==> fitness[best as int] <= fitness[#[trigger] neighbors[m] as int],
        forall|m: int|
            0 <= m < neighbors.len() && fitness[#[trigger] neighbors[m] as int] == fitness[best as int]
                ==> exists|k: int| 0 <= k <= m && neighbors[k] == best,
        is_first_min(neighbors, fitness, other) ==> other == best,
{
    let k = choose|k: int|
        0 <= k < neighbors.len() && #[trigger] neighbors[k] == best && (forall|m: int|
            0 <= m < neighbors.len() ==> fitness[best as int] <= fitness[#[trigger] neighbors[m] as int])
            && (forall|m: int| 0 <= m < k ==> fitness[#[trigger] neighbors[m] as int] > fitness[best as int]);
    assert forall|m: int|
        0 <= m < neighbors.len() && fitness[#[trigger] neighbors[m] as int] == fitness[best as int]
            implies exists|j: int| 0 <= j <= m && neighbors[j] == best by {
        assert(neighbors[k] == best);
    }
    if is_first_min(neighbors, fitness, other) {
        let k2 = choose|k2: int|
            0 <= k2 < neighbors.len() && #[trigger] neighbors[k2] == other && (forall|m: int|
                0 <= m < neighbors.len() ==> fitness[other as int] <= fitness[#[trigger] neighbors[m] as int])
                && (forall|m: int| 0 <= m < k2 ==> fitness[#[trigger] neighbors[m] as int] > fitness[other as int]);
        if k < k2 {
            assert(fitness[neighbors[k] as int] > fitness[other as int]);
        } else if k2 < k {
            assert(fitness[neighbors[k2] as int] > fitness[best as int]);
        }
    }
}

/// Star (global) topology: every particle is neighbor to every other.
#[derive(Clone)]
pub struct StarTopology;

impl Topology for StarTopology {
    open spec fn neighbors_defined(&self, i: usize, swarm_size: usize) -> bool {
        true
    }

    /// All particles `0, 1, ..., swarm_size - 1`.
    open spec fn neighbor_seq(&self, i: usize, swarm_size: usize) -> Seq<usize> {
        Seq::new(swarm_size as nat, |j: int| j as usize)
    }

    fn neighbors(&self, i: usize, swarm_size: usize) -> (result: Vec<usize>) {
        let mut result: Vec<usize> = Vec::new();
        let mut j: usize = 0;
        while j < swarm_size
            invariant
                j <= swarm_size,
                result@ == Seq::new(j as nat, |m: int| m as usize),
            decreases swarm_size - j,
        {
            result.push(j);
            j = j + 1;
        }
        proof {
            if i < swarm_size {
                assert(result@[i as int] == i);
            }
        }
        result
    }
}

/// The star neighbourhood of any particle is the whole swarm, each particle
/// once, in index order: the same list whichever particle asks.
pub proof fn lemma_star_neighbors_whole_swarm(t: StarTopology, i: usize, other: usize, n: usize)
    ensures
        t.neighbor_seq(i, n).len() == n,
        forall|j: int| 0 <= j < n ==> #[trigger] t.neighbor_seq(i, n)[j] == j,
        t.neighbor_seq(i, n) == t.neighbor_seq(other, n),
{
    assert(t.neighbor_seq(i, n) =~= t.neighbor_seq(other, n));
}

/// Ring topology: each particle has `k` nearest neighbors around the ring,
/// `k / 2` on either side of it, and for an odd `k` one more on the side of
/// the higher indices; it also sees itself.
#[derive(Clone)]
pub struct RingTopology {
    pub k: usize,
}

impl RingTopology {
    /// Offset from `i` of the `j`-th ring neighbour: `+1, -1, +2, -2, ...`.
    pub open spec fn ring_offset(j: int) -> int {
        if j % 2 == 0 {
            j / 2 + 1
        } else {
            -(j / 2 + 1)
        }
    }

    /// The `j`-th ring neighbour of `i` in a ring of `n` particles.
    pub open spec fn ring_entry(i: usize, n: usize, j: int) -> usize {
        ((i + RingTopology::ring_offset(j)) % (n as int)) as usize
    }
}

/// Around the ring, the neighbours of `i` come in pairs: entry `2(d - 1)` is
/// `i + d` and entry `2d - 1` is `i - d`, modulo the swarm size, for
/// `d = 1, ..., k / 2`; an odd `k` adds `i + (k + 1) / 2` at entry `k - 1`; and
/// the last entry, `k`, is `i` itself.
pub proof fn lemma_ring_neighbors_around(t: RingTopology, i: usize, n: usize)
    requires
        n > 0,
    ensures
        t.neighbor_seq(i, n).len() == t.k + 1,
        t.neighbor_seq(i, n)[t.k as int] == i,
        forall|d: int|
            1 <= d <= t.k / 2 ==> #[trigger] t.neighbor_seq(i, n)[2 * (d - 1)] as int == (i + d)
                % (n as int) && t.neighbor_seq(i, n)[2 * d - 1] as int == (i - d) % (n as int),
        t.k % 2 == 1 ==> t.neighbor_seq(i, n)[t.k - 1] as int == (i + (t.k + 1) / 2) % (n as int),
{
    let ns = t.neighbor_seq(i, n);
    assert forall|d: int| 1 <= d <= t.k / 2 implies #[trigger] ns[2 * (d - 1)] as int == (i + d) % (
    n as int) && ns[2 * d - 1] as int == (i - d) % (n as int) by {
        assert((2 * (d - 1)) % 2 == 0 && (2 * (d - 1)) / 2 + 1 == d);
        assert((2 * d - 1) % 2 == 1 && (2 * d - 1) / 2 + 1 == d);
        vstd::arithmetic::div_mod::lemma_mod_bound(i + d, n as int);
        vstd::arithmetic::div_mod::lemma_mod_bound(i - d, n as int);
    }
    if t.k % 2 == 1 {
        assert((t.k - 1) % 2 == 0 && (t.k - 1) / 2 + 1 == (t.k + 1) / 2);
        vstd::arithmetic::div_mod::lemma_mod_bound(i + (t.k + 1) / 2, n as int);
    }
}

/// Two integers less than `n` apart, but not equal, differ modulo `n`.
proof fn lemma_mod_differs(x: int, y: int, n: int)
    requires
        n > 0,
        x != y,
        -n < y - x < n,
    ensures
        x % n != y % n,
{
    if x < y {
        vstd::arithmetic::div_mod::lemma_mod_equivalence(y, x, n);
        vstd::arithmetic::div_mod::lemma_small_mod((y - x) as nat, n as nat);
    } else {
        vstd::arithmetic::div_mod::lemma_mod_equivalence(x, y, n);
        vstd::arithmetic::div_mod::lemma_small_mod((x - y) as nat, n as nat);
    }
}

/// In a swarm of more than `k` particles, the ring gives each particle `k`
/// distinct neighbours, none of them itself.
pub proof fn lemma_ring_neighbors_distinct(t: RingTopology, i: usize, n: usize)
    requires
        i < n,
        t.k < n,
    ensures
        t.neighbor_seq(i, n).len() == t.k + 1,
        forall|a: int, b: int|
            0 <= a < b <= t.k ==> #[trigger] t.neighbor_seq(i, n)[a] != #[trigger] t.neighbor_seq(
                i,
                n,
            )[b],
{
    let k = t.k as int;
    let ns = t.neighbor_seq(i, n);
    assert forall|a: int, b: int| 0 <= a < b <= k implies #[trigger] ns[a] != #[trigger] ns[b] by {
        let oa = RingTopology::ring_offset(a);
        if b == k {
            assert(-n < oa < n);
            assert(oa != 0);
            lemma_mod_differs(i + oa, i as int, n as int);
            vstd::arithmetic::div_mod::lemma_small_mod(i as nat, n as nat);
            vstd::arithmetic::div_mod::lemma_mod_bound(i + oa, n as int);
        } else {
            let ob = RingTopology::ring_offset(b);
            assert(oa != ob);
            assert(-n < ob - oa < n);
            lemma_mod_differs(i + oa, i + ob, n as int);
            vstd::arithmetic::div_mod::lemma_mod_bound(i + oa, n as int);
            vstd::arithmetic::div_mod::lemma_mod_bound(i + ob, n as int);
        }
    }
}

impl Topology for RingTopology {
    /// The ring needs a non-empty swarm as soon as it has a neighbour, and
    /// `i` plus the offsets used must fit in a `usize` (`i + swarm_size` too,
    /// and be at least `k / 2`, once there are neighbours on both sides).
    open spec fn neighbors_defined(&self, i: usize, swarm_size: usize) -> bool {
        let half = self.k / 2;
        &&& i + (self.k - half) <= usize::MAX
        &&& self.k >= 1 ==> swarm_size > 0
        &&& half >= 1 ==> {
            &&& i + swarm_size <= usize::MAX
            &&& half <= i + swarm_size
        }
    }

    /// The `k` neighbours `i + 1, i - 1, i + 2, i - 2, ...` modulo the swarm
    /// size, followed by `i`.
    open spec fn neighbor_seq(&self, i: usize, swarm_size: usize) -> Seq<usize> {
        Seq::new(
            (self.k + 1) as nat,
            |j: int|
                if j == self.k {
                    i
                } else {
                    RingTopology::ring_entry(i, swarm_size, j)
                },
        )
    }

    fn neighbors(&self, i: usize, swarm_size: usize) -> (result: Vec<usize>) {
        let half = self.k / 2;
        let mut neighbors: Vec<usize> = Vec::new();
        let mut d: usize = 1;
        while d <= half
            invariant
                self.neighbors_defined(i, swarm_size),
                half == self.k / 2,
                1 <= d <= half + 1,
                neighbors@.len() == 2 * (d - 1),
                forall|j: int|
                    0 <= j < neighbors@.len() ==> #[trigger] neighbors@[j]
                        == RingTopology::ring_entry(i, swarm_size, j),
            decreases half + 1 - d,
        {
            let ghost before = neighbors@;
            neighbors.push((i + d) % swarm_size);
            neighbors.push((i + swarm_size - d) % swarm_size);
            proof {
                let j = 2 * (d - 1);
                assert(j / 2 + 1 == d);
                assert((j + 1) / 2 + 1 == d);
                assert(j % 2 == 0);
                assert((j + 1) % 2 == 1);
                vstd::arithmetic::div_mod::lemma_mod_add_multiples_vanish(
                    i - d,
                    swarm_size as int,
                );
                assert(neighbors@[j] == RingTopology::ring_entry(i, swarm_size, j));
                assert(neighbors@[j + 1] == RingTopology::ring_entry(i, swarm_size, j + 1));
                assert forall|m: int| 0 <= m < neighbors@.len() implies #[trigger] neighbors@[m]
                    == RingTopology::ring_entry(i, swarm_size, m) by {
                    if m < j {
                        assert(neighbors@[m] == before[m]);
                    }
                }
            }
            d = d + 1;
        }
        // An odd k leaves one more neighbour, on the side of the higher indices.
        if self.k % 2 == 1 {
            let ghost before = neighbors@;
            neighbors.push((i + half + 1) % swarm_size);
            proof {
                let j = 2 * half;
                assert(j % 2 == 0);
                assert(j / 2 + 1 == half + 1);
                assert(neighbors@[j] == RingTopology::ring_entry(i, swarm_size, j));
                assert forall|m: int| 0 <= m < neighbors@.len() implies #[trigger] neighbors@[m]
                    == RingTopology::ring_entry(i, swarm_size, m) by {
                    if m < j {
                        assert(neighbors@[m] == before[m]);
                    }
                }
            }
        }
        neighbors.push(i);
        proof {
            assert(neighbors@ =~= self.neighbor_seq(i, swarm_size));
            assert(neighbors@[self.k as int] == i);
            if i < swarm_size {
                assert forall|k: int| 0 <= k < neighbors@.len() implies #[trigger] neighbors@[k]
                    < swarm_size by {
                    if k < self.k {
                        vstd::arithmetic::div_mod::lemma_mod_bound(
                            i + RingTopology::ring_offset(k),
                            swarm_size as int,
                        );
                    }
                }
            }
        }
        neighbors
    }
}

/// Von Neumann topology: the swarm laid out on a grid of `cols` columns,
/// each particle seeing its four grid neighbours.
#[derive(Clone)]
pub struct VonNeumannTopology {
    pub rows: usize,
    pub cols: usize,
}

impl VonNeumannTopology {
    pub fn new(rows: usize, cols: usize) -> (t: Self)
        ensures
            t.rows == rows,
            t.cols == cols,
    {
        Self { rows, cols }
    }

    /// Row and column of particle `i` on the grid.
    pub fn grid_pos(&self, i: usize) -> (pos: (usize, usize))
        requires
            self.cols > 0,
        ensures
            pos.0 == i / self.cols,
            pos.1 == i % self.cols,
    {
        (i / self.cols, i % self.cols)
    }

    /// Index of the particle at row `r`, column `c`.
    pub fn idx(&self, r: usize, c: usize) -> (i: usize)
        requires
            r * self.cols + c <= usize::MAX,
        ensures
            i == r * self.cols + c,
    {
        r * self.cols + c
    }
}

/// Reading off a particle's grid position and turning it back into an index
/// gives the particle back.
pub proof fn lemma_idx_of_grid_pos(t: VonNeumannTopology, i: usize)
    requires
        t.cols > 0,
    ensures
        (i / t.cols) * t.cols + i % t.cols == i,
{
    vstd::arithmetic::div_mod::lemma_fundamental_div_mod(i as int, t.cols as int);
}

/// The grid position of the particle at row `r`, column `c` (a column of the
/// grid) is `(r, c)`.
pub proof fn lemma_grid_pos_of_idx(t: VonNeumannTopology, r: usize, c: usize)
    requires
        c < t.cols,
    ensures
        (r * t.cols + c) / (t.cols as int) == r,
        (r * t.cols + c) % (t.cols as int) == c,
{
    vstd::arithmetic::div_mod::lemma_fundamental_div_mod_converse(
        r * t.cols + c,
        t.cols as int,
        r as int,
        c as int,
    );
}

/// Particles `i` and `j` sit next to each other on a grid of `cols` columns:
/// in one row and neighbouring columns, or in one column and neighbouring rows.
pub open spec fn grid_adjacent(cols: int, i: int, j: int) -> bool {
    ||| j / cols == i / cols && (j % cols == i % cols + 1 || j % cols + 1 == i % cols)
    ||| j % cols == i % cols && (j / cols == i / cols + 1 || j / cols + 1 == i / cols)
}

/// The von Neumann neighbourhood of `i` starts with `i`, lists every other
/// particle at most once and only particles next to `i` on the grid, and holds
/// each grid neighbour that exists: the one above, the one below (on a row of
/// the grid, within the swarm), the one to the left, and the one to the right
/// (within the swarm).
pub proof fn lemma_von_neumann_neighbors_are_grid_neighbors(
    t: VonNeumannTopology,
    i: usize,
    n: usize,
)
    requires
        t.cols > 0,
    ensures
        t.neighbor_seq(i, n)[0] == i,
        forall|k: int|
            1 <= k < t.neighbor_seq(i, n).len() ==> grid_adjacent(
                t.cols as int,
                i as int,
                #[trigger] t.neighbor_seq(i, n)[k] as int,
            ),
        forall|a: int, b: int|
            0 <= a < b < t.neighbor_seq(i, n).len() ==> #[trigger] t.neighbor_seq(i, n)[a]
                != #[trigger] t.neighbor_seq(i, n)[b],
        i / t.cols > 0 ==> t.neighbor_seq(i, n).contains(
            ((i / t.cols - 1) * t.cols + i % t.cols) as usize,
        ),
        i / t.cols + 1 < t.rows && (i / t.cols + 1) * t.cols + i % t.cols < n
            ==> t.neighbor_seq(i, n).contains(((i / t.cols + 1) * t.cols + i % t.cols) as usize),
        i % t.cols > 0 ==> t.neighbor_seq(i, n).contains(
            ((i / t.cols) * t.cols + i % t.cols - 1) as usize,
        ),
        i % t.cols + 1 < t.cols && (i / t.cols) * t.cols + i % t.cols + 1 < n
            ==> t.neighbor_seq(i, n).contains(((i / t.cols) * t.cols + i % t.cols + 1) as usize),
{
    let cols = t.cols as int;
    let r: int = i as int / cols;
    let c: int = i as int % cols;
    vstd::arithmetic::div_mod::lemma_fundamental_div_mod(i as int, cols);
    assert(i == r * cols + c);
    assert((r - 1) * cols + c == i - cols && (r + 1) * cols + c == i + cols) by (nonlinear_arith)
        requires
            i == r * cols + c,
    ;
    assert(r > 0 ==> i >= cols) by (nonlinear_arith)
        requires
            i == r * cols + c,
            c >= 0,
            cols > 0,
    ;
    let up = seq![(i - cols) as usize];
    let down = seq![(i + cols) as usize];
    let left = seq![(i - 1) as usize];
    let right = seq![(i + 1) as usize];
    let has_up = r > 0;
    let has_down = r + 1 < t.rows && i + cols < n;
    let has_left = c > 0;
    let has_right = c + 1 < cols && i + 1 < n;
    let ns = t.neighbor_seq(i, n);
    assert(ns == seq![i] + (if has_up { up } else { Seq::empty() }) + (if has_down {
        down
    } else {
        Seq::empty()
    }) + (if has_left { left } else { Seq::empty() }) + (if has_right {
        right
    } else {
        Seq::empty()
    }));
    if has_up {
        vstd::arithmetic::div_mod::lemma_fundamental_div_mod_converse(i - cols, cols, r - 1, c);
    }
    if has_down {
        vstd::arithmetic::div_mod::lemma_fundamental_div_mod_converse(i + cols, cols, r + 1, c);
    }
    if has_left {
        vstd::arithmetic::div_mod::lemma_fundamental_div_mod_converse(i - 1, cols, r, c - 1);
    }
    if has_right {
        vstd::arithmetic::div_mod::lemma_fundamental_div_mod_converse(i + 1, cols, r, c + 1);
    }
    // The list, one entry at a time.
    let mut es: Seq<int> = seq![i as int];
    if has_up {
        es = es.push(i - cols);
    }
    if has_down {
        es = es.push(i + cols);
    }
    if has_left {
        es = es.push(i - 1);
    }
    if has_right {
        es = es.push(i + 1);
    }
    assert(ns.len() == es.len());
    assert forall|k: int| 0 <= k < ns.len() implies #[trigger] ns[k] as int == es[k] by {
        assert(ns[k] == (seq![i] + (if has_up { up } else { Seq::empty() }) + (if has_down {
            down
        } else {
            Seq::empty()
        }) + (if has_left { left } else { Seq::empty() }) + (if has_right {
            right
        } else {
            Seq::empty()
        }))[k]);
    }
    assert forall|k: int| 1 <= k < ns.len() implies grid_adjacent(
        cols,
        i as int,
        #[trigger] ns[k] as int,
    ) by {
        assert(ns[k] as int == es[k]);
    }
    assert forall|a: int, b: int| 0 <= a < b < ns.len() implies #[trigger] ns[a] != #[trigger] ns[b] by {
        assert(ns[a] as int == es[a]);
        assert(ns[b] as int == es[b]);
    }
    if has_up {
        assert(ns[1] as int == es[1]);
    }
    if has_down {
        let k: int = if has_up { 2 } else { 1 };
        assert(ns[k] as int == es[k]);
    }
    if has_left {
        let k: int = 1 + (if has_up { 1int } else { 0 }) + (if has_down { 1int } else { 0 });
        assert(ns[k] as int == es[k]);
    }
    if has_right {
        let k: int = 1 + (if has_up { 1int } else { 0 }) + (if has_down { 1int } else { 0 }) + (if has_left {
            1int
        } else {
            0
        });
        assert(ns[k] as int == es[k]);
    }
}

impl Topology for VonNeumannTopology {
    /// The grid needs at least one column, and the indices one row down and
    /// one column right must fit in a `usize` wherever they are computed.
    open spec fn neighbors_defined(&self, i: usize, swarm_size: usize) -> bool {
        &&& self.cols > 0
        &&& i / self.cols + 1 <= usize::MAX
        &&& i / self.cols + 1 < self.rows ==> i + self.cols <= usize::MAX
        &&& i % self.cols + 1 < self.cols ==> i + 1 <= usize::MAX
    }

    /// `i` itself, then the particle above (`i - cols`), below (`i + cols`),
    /// to the left (`i - 1`) and to the right (`i + 1`) of it, each where it
    /// lies on the grid and in the swarm.
    open spec fn neighbor_seq(&self, i: usize, swarm_size: usize) -> Seq<usize> {
        let r = i / self.cols;
        let c = i % self.cols;
        seq![i]
            + (if r > 0 { seq![(i - self.cols) as usize] } else { Seq::empty() })
            + (if r + 1 < self.rows && i + self.cols < swarm_size {
                seq![(i + self.cols) as usize]
            } else {
                Seq::empty()
            })
            + (if c > 0 { seq![(i - 1) as usize] } else { Seq::empty() })
            + (if c + 1 < self.cols && i + 1 < swarm_size {
                seq![(i + 1) as usize]
            } else {
                Seq::empty()
            })
    }

    fn neighbors(&self, i: usize, swarm_size: usize) -> (result: Vec<usize>) {
        let (r, c) = self.grid_pos(i);
        let cols = self.cols;
        proof {
            vstd::arithmetic::div_mod::lemma_fundamental_div_mod(i as int, cols as int);
            assert(i == r * cols + c);
        }
        let mut neighbors: Vec<usize> = Vec::new();
        neighbors.push(i);
        // Up
        if r > 0 {
            assert((r - 1) * cols + c == i - cols) by (nonlinear_arith)
                requires
                    i == r * cols + c,
                    r > 0,
            ;
            neighbors.push(self.idx(r - 1, c));
        }
        // Down
        let next_r = r + 1;
        assert(next_r * cols + c == i + cols) by (nonlinear_arith)
            requires
                i == r * cols + c,
                next_r == r + 1,
        ;
        if next_r < self.rows && self.idx(next_r, c) < swarm_size {
            neighbors.push(self.idx(next_r, c));
        }
        // Left
        if c > 0 {
            neighbors.push(self.idx(r, c - 1));
        }
        // Right
        let next_c = c + 1;
        if next_c < self.cols && self.idx(r, next_c) < swarm_size {
            neighbors.push(self.idx(r, next_c));
        }
        proof {
            assert(neighbors@ =~= self.neighbor_seq(i, swarm_size));
            assert(neighbors@[0] == i);
        }
        neighbors
    }
}

} // verus!
