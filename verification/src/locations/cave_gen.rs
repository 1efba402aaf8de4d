//! Cave generation shared by every planet type: carve masks, breadth-first distances,
//! spread-out picks and the per-level themes.
use vstd::prelude::*;
use vstd::string::StringSliceAdditionalSpecFns;
use std::collections::VecDeque;
use rand::rngs::SmallRng;
use crate::rng::{small_range_usize, small_ratio};
use crate::level::{Level, Tile};
use crate::galaxy::Location;

verus! {

/// The FNV-1a offset basis.
pub const FNV_OFFSET: u64 = 0xcbf2_9ce4_8422_2325;
/// The FNV-1a prime.
pub const FNV_PRIME: u64 = 0x100_0000_01b3;

/// The 64-bit FNV-1a hash of `bytes`.
pub open spec fn fnv1a(bytes: Seq<u8>) -> u64
    decreases bytes.len(),
{
    if bytes.len() == 0 {
        FNV_OFFSET
    } else {
        (fnv1a(bytes.drop_last()) ^ (bytes.last() as u64)).wrapping_mul(FNV_PRIME)
    }
}

/// A stable per-location seed, so different planets get different caves: the FNV-1a hash of
/// the name's bytes.
pub fn name_seed(name: &str) -> (h: u64)
    ensures
        h == fnv1a(name.spec_bytes()),
{
    let bytes = name.as_bytes();
    let mut h: u64 = FNV_OFFSET;
    let mut i: usize = 0;
    while i < bytes.len()
        invariant
            i <= bytes@.len(),
            bytes@ == name.spec_bytes(),
            h == fnv1a(bytes@.subrange(0, i as int)),
        decreases bytes@.len() - i,
    {
        assert(bytes@.subrange(0, i + 1).drop_last() == bytes@.subrange(0, i as int));
        h = (h ^ (bytes[i] as u64)).wrapping_mul(FNV_PRIME);
        i = i + 1;
    }
    assert(bytes@.subrange(0, bytes@.len() as int) == bytes@);
    h
}

/// Border of a level that is never carved.
pub const MARGIN: i32 = 3;
/// Creatures spawn at least this far (breadth-first steps) from a level's entry points.
pub const SAFE_RADIUS: i32 = 14;

/// Index of `(x, y)` in a row-major square grid of side `size`.
pub open spec fn cell_index(size: int, x: int, y: int) -> int {
    y * size + x
}

pub open spec fn in_square(size: int, x: int, y: int) -> bool {
    0 <= x < size && 0 <= y < size
}

/// A grid side whose cell count fits an `i32`.
pub open spec fn side_ok(size: int) -> bool {
    0 <= size && size * size <= i32::MAX
}

pub proof fn lemma_cell_index(size: int, x: int, y: int)
    requires
        side_ok(size),
        in_square(size, x, y),
    ensures
        0 <= cell_index(size, x, y) < size * size,
        size <= i32::MAX,
{
    assert(size <= size * size) by (nonlinear_arith)
        requires
            1 <= size,
    ;
    assert(0 <= y * size <= (size - 1) * size) by (nonlinear_arith)
        requires
            0 <= y < size,
    ;
    assert((size - 1) * size + size == size * size) by (nonlinear_arith);
}

pub proof fn lemma_cell_index_inj(size: int, x: int, y: int, u: int, v: int)
    requires
        side_ok(size),
        in_square(size, x, y),
        in_square(size, u, v),
        cell_index(size, x, y) == cell_index(size, u, v),
    ensures
        x == u && y == v,
{
    assert(y == v) by (nonlinear_arith)
        requires
            0 <= x < size,
            0 <= u < size,
            y * size + x == v * size + u,
    ;
}

/// Boolean carve mask for one level: true is floor.
pub struct Carved {
    pub size: i32,
    pub floor: Vec<bool>,
}

impl Carved {
    pub open spec fn wf(&self) -> bool {
        side_ok(self.size as int) && self.floor@.len() == self.size * self.size
    }

    pub open spec fn spec_get(&self, x: int, y: int) -> bool {
        in_square(self.size as int, x, y) && self.floor@[cell_index(self.size as int, x, y)]
    }

    /// An all-wall mask of side `size`.
    pub fn new(size: i32) -> (c: Self)
        requires
            side_ok(size as int),
        ensures
            c.wf(),
            c.size == size,
            forall|x: int, y: int| !#[trigger] c.spec_get(x, y),
    {
        let n = (size * size) as usize;
        let mut floor: Vec<bool> = Vec::new();
        let mut i: usize = 0;
        while i < n
            invariant
                i <= n,
                floor@.len() == i,
                forall|j: int| 0 <= j < i ==> !floor@[j],
            decreases n - i,
        {
            floor.push(false);
            i = i + 1;
        }
        let c = Carved { size, floor };
        assert forall|x: int, y: int| !#[trigger] c.spec_get(x, y) by {
            if in_square(size as int, x, y) {
                lemma_cell_index(size as int, x, y);
            }
        }
        c
    }

    /// Whether `(x, y)` is carved floor; off the grid it is not.
    pub fn get(&self, x: i32, y: i32) -> (b: bool)
        requires
            self.wf(),
        ensures
            b == self.spec_get(x as int, y as int),
    {
        if x >= 0 && y >= 0 && x < self.size && y < self.size {
            proof { lemma_cell_index(self.size as int, x as int, y as int); }
            self.floor[(y * self.size + x) as usize]
        } else {
            false
        }
    }

    /// Carves `(x, y)` unless it lies in the border margin.
    pub fn set(&mut self, x: i32, y: i32)
        requires
            old(self).wf(),
        ensures
            final(self).wf(),
            final(self).size == old(self).size,
            forall|u: int, v: int| #[trigger] final(self).spec_get(u, v) == (old(self).spec_get(u, v)
                || (u == x && v == y && MARGIN <= x < old(self).size - MARGIN && MARGIN <= y < old(self).size - MARGIN)),
    {
        if x >= MARGIN && y >= MARGIN && x < self.size - MARGIN && y < self.size - MARGIN {
            proof { lemma_cell_index(self.size as int, x as int, y as int); }
            let i = (y * self.size + x) as usize;
            self.floor.set(i, true);
            proof {
                assert forall|u: int, v: int| #[trigger] self.spec_get(u, v) == (old(self).spec_get(u, v) || (u == x && v == y)) by {
                    if in_square(self.size as int, u, v) {
                        lemma_cell_index(self.size as int, u, v);
                        if cell_index(self.size as int, u, v) == i {
                            lemma_cell_index_inj(self.size as int, u, v, x as int, y as int);
                        }
                    }
                }
            }
        }
    }

    /// How many of the eight neighbours of `(x, y)` are floor.
    pub fn floor_neighbors8(&self, x: i32, y: i32) -> (n: usize)
        requires
            self.wf(),
            i32::MIN < x < i32::MAX,
            i32::MIN < y < i32::MAX,
        ensures
            n == count_floor8(*self, x as int, y as int),
    {
        let mut n: usize = 0;
        let mut dy: i32 = -1;
        while dy <= 1
            invariant
                self.wf(),
                i32::MIN < x < i32::MAX,
                i32::MIN < y < i32::MAX,
                -1 <= dy <= 2,
                n == count_floor8_rows(*self, x as int, y as int, dy as int),
                n <= 3 * (dy + 1),
            decreases 2 - dy,
        {
            let mut dx: i32 = -1;
            let ghost base = n;
            while dx <= 1
                invariant
                    self.wf(),
                    i32::MIN < x < i32::MAX,
                    i32::MIN < y < i32::MAX,
                    -1 <= dy <= 1,
                    -1 <= dx <= 2,
                    n == base + count_floor8_cols(*self, x as int, y as int, dy as int, dx as int),
                    base <= 3 * (dy + 1),
                    n <= base + dx + 1,
                decreases 2 - dx,
            {
                if !(dx == 0 && dy == 0) && self.get(x + dx, y + dy) {
                    n = n + 1;
                }
                dx = dx + 1;
            }
            dy = dy + 1;
        }
        n
    }
}

/// Floor neighbours of `(x, y)` in the row `y + dy` among columns `x - 1` up to `x + dx - 1`.
pub open spec fn count_floor8_cols(c: Carved, x: int, y: int, dy: int, dx: int) -> nat
    decreases dx + 1,
{
    if dx <= -1 {
        0
    } else {
        count_floor8_cols(c, x, y, dy, dx - 1) + if !(dx - 1 == 0 && dy == 0) && c.spec_get(x + dx - 1, y + dy) { 1nat } else { 0nat }
    }
}

/// Floor neighbours of `(x, y)` in the rows `y - 1` up to `y + dy - 1`.
pub open spec fn count_floor8_rows(c: Carved, x: int, y: int, dy: int) -> nat
    decreases dy + 1,
{
    if dy <= -1 {
        0
    } else {
        count_floor8_rows(c, x, y, dy - 1) + count_floor8_cols(c, x, y, dy - 1, 2)
    }
}

/// Floor tiles among the eight neighbours of `(x, y)`.
pub open spec fn count_floor8(c: Carved, x: int, y: int) -> nat {
    count_floor8_rows(c, x, y, 2)
}

/// The four orthogonal steps, in the order the searches take them.
pub open spec fn dir4(k: int) -> (int, int) {
    if k == 0 { (1, 0) } else if k == 1 { (-1, 0) } else if k == 2 { (0, 1) } else { (0, -1) }
}

pub open spec fn dist_at(dist: Seq<i32>, size: int, x: int, y: int) -> int {
    dist[cell_index(size, x, y)] as int
}

/// Some orthogonal neighbour of `(x, y)` on the grid is at distance `d`.
pub open spec fn has_nbr_at(dist: Seq<i32>, size: int, x: int, y: int, d: int) -> bool {
    exists|k: int| 0 <= k < 4 && in_square(size, x + dir4(k).0, y + dir4(k).1)
        && #[trigger] dist_at(dist, size, x + dir4(k).0, y + dir4(k).1) == d
}

/// Every passable orthogonal neighbour of `(x, y)` on the grid has been reached.
pub open spec fn nbrs_reached(dist: Seq<i32>, mask: Seq<bool>, size: int, x: int, y: int) -> bool {
    forall|k: int| 0 <= k < 4 && in_square(size, x + dir4(k).0, y + dir4(k).1)
        && mask[cell_index(size, x + dir4(k).0, y + dir4(k).1)]
        ==> #[trigger] dist_at(dist, size, x + dir4(k).0, y + dir4(k).1) >= 0
}

/// No labelled orthogonal neighbour of `(x, y)` is more than one above it.
pub open spec fn nbrs_within_one(dist: Seq<i32>, size: int, x: int, y: int) -> bool {
    forall|k: int| 0 <= k < 4 && in_square(size, x + dir4(k).0, y + dir4(k).1)
        && #[trigger] dist_at(dist, size, x + dir4(k).0, y + dir4(k).1) >= 0
        ==> dist_at(dist, size, x + dir4(k).0, y + dir4(k).1) <= dist_at(dist, size, x, y) + 1
}

/// `dist` is a breadth-first labelling of the passable cells `mask` from `starts`: the passable
/// starts are at 0, every other labelled cell is passable and one more than a neighbour, no two
/// labelled neighbours differ by more than one (so each label is the length of a shortest
/// passable path from a start), and the labelled cells are closed under passable orthogonal
/// steps (so they are exactly the cells reachable from a passable start); every other cell holds -1.
pub open spec fn bfs_ok(dist: Seq<i32>, mask: Seq<bool>, size: int, starts: Seq<(i32, i32)>) -> bool {
    &&& dist.len() == size * size
    &&& forall|x: int, y: int| in_square(size, x, y) ==> #[trigger] dist_at(dist, size, x, y) >= -1
    &&& forall|x: int, y: int| in_square(size, x, y) && #[trigger] dist_at(dist, size, x, y) == 0
        ==> mask[cell_index(size, x, y)] && starts.contains((x as i32, y as i32))
    &&& forall|x: int, y: int| in_square(size, x, y) && #[trigger] dist_at(dist, size, x, y) > 0
        ==> mask[cell_index(size, x, y)] && has_nbr_at(dist, size, x, y, dist_at(dist, size, x, y) - 1)
    &&& forall|k: int| 0 <= k < starts.len() && mask[cell_index(size, (#[trigger] starts[k]).0 as int, starts[k].1 as int)]
        ==> dist_at(dist, size, starts[k].0 as int, starts[k].1 as int) == 0
    &&& forall|x: int, y: int| in_square(size, x, y) && #[trigger] dist_at(dist, size, x, y) >= 0
        ==> nbrs_reached(dist, mask, size, x, y)
    &&& forall|x: int, y: int| in_square(size, x, y) && #[trigger] dist_at(dist, size, x, y) >= 0
        ==> nbrs_within_one(dist, size, x, y)
}

/// Cells before `(x, y)` in row-major order have smaller indices.
pub proof fn lemma_index_before(size: int, u: int, v: int, x: int, y: int)
    requires
        (0 <= v < y && 0 <= u < size) || (v == y && 0 <= u < x),
        0 <= x,
    ensures
        cell_index(size, u, v) < cell_index(size, x, y),
{
    if v < y {
        assert(v * size + u < (v + 1) * size) by (nonlinear_arith)
            requires
                0 <= u < size,
        ;
        assert((v + 1) * size <= y * size) by (nonlinear_arith)
            requires
                v + 1 <= y,
                0 <= size,
        ;
    }
}

/// The passability of every cell of the grid, as `passable` answers it.
fn passability_mask<F: Fn(i32, i32) -> bool>(size: i32, passable: &F) -> (m: Vec<bool>)
    requires
        side_ok(size as int),
        forall|x: i32, y: i32| call_requires(*passable, (x, y)),
    ensures
        m@.len() == size * size,
        forall|x: int, y: int| in_square(size as int, x, y)
            ==> call_ensures(*passable, (x as i32, y as i32), #[trigger] m@[cell_index(size as int, x, y)]),
{
    let mut m: Vec<bool> = Vec::new();
    let mut y: i32 = 0;
    while y < size
        invariant
            side_ok(size as int),
            forall|x: i32, y: i32| call_requires(*passable, (x, y)),
            0 <= y <= size,
            m@.len() == y * size,
            forall|u: int, v: int| 0 <= v < y && 0 <= u < size
                ==> call_ensures(*passable, (u as i32, v as i32), #[trigger] m@[cell_index(size as int, u, v)]),
        decreases size - y,
    {
        let mut x: i32 = 0;
        while x < size
            invariant
                side_ok(size as int),
                forall|x: i32, y: i32| call_requires(*passable, (x, y)),
                0 <= y < size,
                0 <= x <= size,
                m@.len() == y * size + x,
                forall|u: int, v: int| ((0 <= v < y && 0 <= u < size) || (v == y && 0 <= u < x))
                    ==> call_ensures(*passable, (u as i32, v as i32), #[trigger] m@[cell_index(size as int, u, v)]),
            decreases size - x,
        {
            proof { lemma_cell_index(size as int, x as int, y as int); }
            let b = passable(x, y);
            let ghost before = m@;
            m.push(b);
            proof {
                assert forall|u: int, v: int| ((0 <= v < y && 0 <= u < size) || (v == y && 0 <= u <= x))
                    implies call_ensures(*passable, (u as i32, v as i32), #[trigger] m@[cell_index(size as int, u, v)]) by {
                    if v == y && u == x {
                        assert(cell_index(size as int, u, v) == before.len());
                    } else {
                        lemma_index_before(size as int, u, v, x as int, y as int);
                        assert(m@[cell_index(size as int, u, v)] == before[cell_index(size as int, u, v)]);
                    }
                }
            }
            x = x + 1;
        }
        assert((y + 1) * size == y * size + size) by (nonlinear_arith);
        y = y + 1;
    }
    m
}

/// The labels of a breadth-first labelling in progress: the passable starts are at 0, every
/// other labelled cell is passable and one more than a neighbour, and `reached` is the set of
/// labelled cells and bounds every label.
#[verifier::opaque]
pub open spec fn bfs_labels(dist: Seq<i32>, mask: Seq<bool>, sz: int, starts: Seq<(i32, i32)>, reached: Set<int>) -> bool {
    &&& side_ok(sz)
    &&& mask.len() == sz * sz
    &&& dist.len() == sz * sz
    &&& forall|k: int| 0 <= k < starts.len() ==> in_square(sz, (#[trigger] starts[k]).0 as int, starts[k].1 as int)
    &&& forall|j: int| 0 <= j < sz * sz ==> #[trigger] dist[j] >= -1
    &&& forall|x: int, y: int| in_square(sz, x, y) && #[trigger] dist_at(dist, sz, x, y) == 0
        ==> mask[cell_index(sz, x, y)] && starts.contains((x as i32, y as i32))
    &&& forall|x: int, y: int| in_square(sz, x, y) && #[trigger] dist_at(dist, sz, x, y) > 0
        ==> mask[cell_index(sz, x, y)] && has_nbr_at(dist, sz, x, y, dist_at(dist, sz, x, y) - 1)
    &&& forall|j: int| 0 <= j < starts.len() && mask[cell_index(sz, (#[trigger] starts[j]).0 as int, starts[j].1 as int)]
        ==> dist_at(dist, sz, starts[j].0 as int, starts[j].1 as int) == 0
    &&& forall|j: int| 0 <= j < sz * sz ==> (dist[j] >= 0 <==> reached.contains(j))
    &&& forall|j: int| reached.contains(j) ==> 0 <= j < sz * sz
    &&& reached.finite()
    &&& reached.len() <= sz * sz
    &&& forall|j: int| 0 <= j < sz * sz ==> dist[j] < reached.len()
}

/// The frontier of a breadth-first labelling in progress: queued cells are labelled, and every
/// labelled cell has all its passable neighbours labelled unless it waits in the queue (or is
/// `cur`, while being expanded).
#[verifier::opaque]
pub open spec fn bfs_frontier(dist: Seq<i32>, mask: Seq<bool>, sz: int, queue: Seq<(i32, i32)>, cur: (int, int), expanding: bool) -> bool {
    &&& forall|j: int| 0 <= j < queue.len() ==> in_square(sz, (#[trigger] queue[j]).0 as int, queue[j].1 as int)
        && dist_at(dist, sz, queue[j].0 as int, queue[j].1 as int) >= 0
    &&& forall|x: int, y: int| in_square(sz, x, y) && #[trigger] dist_at(dist, sz, x, y) >= 0
        ==> queue.contains((x as i32, y as i32)) || nbrs_reached(dist, mask, sz, x, y) || (expanding && x == cur.0 && y == cur.1)
}

pub open spec fn bfs_inv(dist: Seq<i32>, mask: Seq<bool>, sz: int, starts: Seq<(i32, i32)>, queue: Seq<(i32, i32)>, reached: Set<int>, cur: (int, int), expanding: bool) -> bool {
    bfs_labels(dist, mask, sz, starts, reached) && bfs_frontier(dist, mask, sz, queue, cur, expanding)
}

/// The label of the `i`th queued cell.
pub open spec fn qd(dist: Seq<i32>, sz: int, queue: Seq<(i32, i32)>, i: int) -> int {
    dist_at(dist, sz, queue[i].0 as int, queue[i].1 as int)
}

/// The layers of a breadth-first labelling in progress, at depth `d` (the label of the cell being
/// expanded, or no more than the queue's front): queued labels ascend and lie in `[d, d + 1]`, and
/// every labelled cell neither queued nor being expanded is at most `d` with no neighbour more
/// than one above it.
#[verifier::opaque]
pub open spec fn bfs_order(dist: Seq<i32>, sz: int, queue: Seq<(i32, i32)>, cur: (int, int), expanding: bool, d: int) -> bool {
    &&& forall|i: int, j: int| #![trigger qd(dist, sz, queue, i), qd(dist, sz, queue, j)]
        0 <= i < j < queue.len() ==> qd(dist, sz, queue, i) <= qd(dist, sz, queue, j)
    &&& forall|i: int| 0 <= i < queue.len() ==> d <= #[trigger] qd(dist, sz, queue, i) <= d + 1
    &&& expanding ==> dist_at(dist, sz, cur.0, cur.1) == d
    &&& forall|x: int, y: int| in_square(sz, x, y) && #[trigger] dist_at(dist, sz, x, y) >= 0
        ==> queue.contains((x as i32, y as i32)) || (expanding && x == cur.0 && y == cur.1)
            || (dist_at(dist, sz, x, y) <= d && nbrs_within_one(dist, sz, x, y))
}

/// Taking the front of the queue moves the depth up to its label.
proof fn lemma_bfs_order_pop(dist: Seq<i32>, sz: int, queue: Seq<(i32, i32)>, d: int)
    requires
        bfs_order(dist, sz, queue, (0, 0), false, d),
        queue.len() > 0,
        forall|j: int| 0 <= j < queue.len() ==> in_square(sz, (#[trigger] queue[j]).0 as int, queue[j].1 as int),
        side_ok(sz),
    ensures
        bfs_order(dist, sz, queue.drop_first(), (queue[0].0 as int, queue[0].1 as int), true, qd(dist, sz, queue, 0)),
        d <= qd(dist, sz, queue, 0),
{
    reveal(bfs_order);
    let q = queue.drop_first();
    let d2 = qd(dist, sz, queue, 0);
    let c = (queue[0].0 as int, queue[0].1 as int);
    assert forall|i: int, j: int| 0 <= i < j < q.len() implies qd(dist, sz, q, i) <= qd(dist, sz, q, j) by {
        assert(q[i] == queue[i + 1] && q[j] == queue[j + 1]);
        assert(qd(dist, sz, q, i) == qd(dist, sz, queue, i + 1));
        assert(qd(dist, sz, q, j) == qd(dist, sz, queue, j + 1));
    }
    assert forall|i: int| 0 <= i < q.len() implies d2 <= #[trigger] qd(dist, sz, q, i) <= d2 + 1 by {
        assert(q[i] == queue[i + 1]);
        assert(qd(dist, sz, queue, 0) <= qd(dist, sz, queue, i + 1));
        assert(qd(dist, sz, queue, i + 1) <= d + 1);
    }
    assert forall|x: int, y: int| in_square(sz, x, y) && #[trigger] dist_at(dist, sz, x, y) >= 0
        implies q.contains((x as i32, y as i32)) || (x == c.0 && y == c.1)
            || (dist_at(dist, sz, x, y) <= d2 && nbrs_within_one(dist, sz, x, y)) by {
        lemma_cell_index(sz, x, y);
        if queue.contains((x as i32, y as i32)) {
            let m = choose|m: int| 0 <= m < queue.len() && queue[m] == (x as i32, y as i32);
            if m == 0 {
                assert(x == c.0 && y == c.1);
            } else {
                assert(q[m - 1] == (x as i32, y as i32));
            }
        }
    }
}

/// Labelling the neighbour `n` of the cell being expanded with one more than its label and
/// queueing it keeps the layers.
#[verifier::spinoff_prover]
proof fn lemma_bfs_order_visit(dist: Seq<i32>, mask: Seq<bool>, sz: int, queue: Seq<(i32, i32)>, x: int, y: int, k: int,
    d: int, nd: Seq<i32>, nq: Seq<(i32, i32)>)
    requires
        bfs_order(dist, sz, queue, (x, y), true, d),
        bfs_frontier(dist, mask, sz, queue, (x, y), true),
        side_ok(sz),
        in_square(sz, x, y),
        0 <= k < 4,
        in_square(sz, x + dir4(k).0, y + dir4(k).1),
        dist_at(dist, sz, x + dir4(k).0, y + dir4(k).1) < 0,
        mask[cell_index(sz, x + dir4(k).0, y + dir4(k).1)],
        forall|u: int, v: int| in_square(sz, u, v) && !(u == x + dir4(k).0 && v == y + dir4(k).1)
            ==> #[trigger] dist_at(nd, sz, u, v) == dist_at(dist, sz, u, v),
        dist_at(nd, sz, x + dir4(k).0, y + dir4(k).1) == d + 1,
        nq == queue.push(((x + dir4(k).0) as i32, (y + dir4(k).1) as i32)),
    ensures
        bfs_order(nd, sz, nq, (x, y), true, d),
{
    reveal(bfs_order);
    reveal(bfs_frontier);
    let nx = x + dir4(k).0;
    let ny = y + dir4(k).1;
    lemma_cell_index(sz, nx, ny);
    assert(nx as i32 as int == nx && ny as i32 as int == ny);
    // Queued cells other than the new one keep their labels.
    assert forall|i: int| 0 <= i < queue.len() implies #[trigger] qd(nd, sz, nq, i) == qd(dist, sz, queue, i) by {
        assert(nq[i] == queue[i]);
        let p = queue[i];
        assert(in_square(sz, p.0 as int, p.1 as int) && dist_at(dist, sz, p.0 as int, p.1 as int) >= 0);
        if p.0 as int == nx && p.1 as int == ny {
            assert(false);
        }
    }
    assert(qd(nd, sz, nq, queue.len() as int) == d + 1);
    assert forall|i: int, j: int| 0 <= i < j < nq.len() implies qd(nd, sz, nq, i) <= qd(nd, sz, nq, j) by {
        assert(qd(nd, sz, nq, i) == qd(dist, sz, queue, i));
        if j < queue.len() {
            assert(qd(nd, sz, nq, j) == qd(dist, sz, queue, j));
        } else {
            assert(qd(dist, sz, queue, i) <= d + 1);
        }
    }
    assert forall|i: int| 0 <= i < nq.len() implies d <= #[trigger] qd(nd, sz, nq, i) <= d + 1 by {
        if i < queue.len() {
            assert(qd(nd, sz, nq, i) == qd(dist, sz, queue, i));
        }
    }
    assert forall|u: int, v: int| in_square(sz, u, v) && #[trigger] dist_at(nd, sz, u, v) >= 0
        implies nq.contains((u as i32, v as i32)) || (u == x && v == y)
            || (dist_at(nd, sz, u, v) <= d && nbrs_within_one(nd, sz, u, v)) by {
        if u == nx && v == ny {
            assert(nq[queue.len() as int] == (u as i32, v as i32));
        } else {
            assert(dist_at(dist, sz, u, v) >= 0);
            if queue.contains((u as i32, v as i32)) {
                let m = choose|m: int| 0 <= m < queue.len() && queue[m] == (u as i32, v as i32);
                assert(nq[m] == (u as i32, v as i32));
            } else if !(u == x && v == y) {
                assert(nbrs_within_one(dist, sz, u, v));
                assert(nbrs_reached(dist, mask, sz, u, v));
                assert forall|w: int| 0 <= w < 4 && in_square(sz, u + dir4(w).0, v + dir4(w).1)
                    && #[trigger] dist_at(nd, sz, u + dir4(w).0, v + dir4(w).1) >= 0
                    implies dist_at(nd, sz, u + dir4(w).0, v + dir4(w).1) <= dist_at(nd, sz, u, v) + 1 by {
                    if u + dir4(w).0 == nx && v + dir4(w).1 == ny {
                        assert(dist_at(dist, sz, u + dir4(w).0, v + dir4(w).1) >= 0);
                    } else {
                        assert(dist_at(dist, sz, u + dir4(w).0, v + dir4(w).1) >= 0);
                    }
                }
            }
        }
    }
}

/// Once every neighbour of the expanded cell is labelled, it keeps to the layers too.
proof fn lemma_bfs_order_done(dist: Seq<i32>, mask: Seq<bool>, sz: int, queue: Seq<(i32, i32)>, x: int, y: int, d: int)
    requires
        bfs_order(dist, sz, queue, (x, y), true, d),
        in_square(sz, x, y),
        side_ok(sz),
        forall|j: int| 0 <= j < queue.len() ==> in_square(sz, (#[trigger] queue[j]).0 as int, queue[j].1 as int),
    ensures
        bfs_order(dist, sz, queue, (0, 0), false, d),
{
    reveal(bfs_order);
    assert forall|w: int| 0 <= w < 4 && in_square(sz, x + dir4(w).0, y + dir4(w).1)
        && #[trigger] dist_at(dist, sz, x + dir4(w).0, y + dir4(w).1) >= 0
        implies dist_at(dist, sz, x + dir4(w).0, y + dir4(w).1) <= dist_at(dist, sz, x, y) + 1 by {
        let u = x + dir4(w).0;
        let v = y + dir4(w).1;
        lemma_cell_index(sz, u, v);
        if queue.contains((u as i32, v as i32)) {
            let m = choose|m: int| 0 <= m < queue.len() && queue[m] == (u as i32, v as i32);
            assert(qd(dist, sz, queue, m) <= d + 1);
            assert(queue[m].0 as int == u && queue[m].1 as int == v);
        }
    }
    assert(nbrs_within_one(dist, sz, x, y));
}

/// The basic facts of the labels.
proof fn lemma_bfs_labels_basic(dist: Seq<i32>, mask: Seq<bool>, sz: int, starts: Seq<(i32, i32)>, reached: Set<int>)
    requires
        bfs_labels(dist, mask, sz, starts, reached),
    ensures
        side_ok(sz),
        mask.len() == sz * sz,
        dist.len() == sz * sz,
        reached.len() <= sz * sz,
        forall|j: int| 0 <= j < sz * sz ==> #[trigger] dist[j] < reached.len(),
{
    reveal(bfs_labels);
}

/// The neighbours of `(x, y)` in the first `k` directions are reached where passable.
pub open spec fn first_nbrs_reached(dist: Seq<i32>, mask: Seq<bool>, sz: int, x: int, y: int, k: int) -> bool {
    forall|j: int| 0 <= j < k && in_square(sz, x + dir4(j).0, y + dir4(j).1)
        && mask[cell_index(sz, x + dir4(j).0, y + dir4(j).1)]
        ==> #[trigger] dist_at(dist, sz, x + dir4(j).0, y + dir4(j).1) >= 0
}

/// Labelling the neighbour in direction `k` of the cell being expanded keeps the labels valid.
#[verifier::spinoff_prover]
proof fn lemma_bfs_visit_labels(dist: Seq<i32>, mask: Seq<bool>, sz: int, starts: Seq<(i32, i32)>, reached: Set<int>,
    x: int, y: int, k: int, nd: Seq<i32>, nr: Set<int>)
    requires
        bfs_labels(dist, mask, sz, starts, reached),
        in_square(sz, x, y),
        dist_at(dist, sz, x, y) >= 0,
        0 <= k < 4,
        in_square(sz, x + dir4(k).0, y + dir4(k).1),
        dist_at(dist, sz, x + dir4(k).0, y + dir4(k).1) < 0,
        mask[cell_index(sz, x + dir4(k).0, y + dir4(k).1)],
        nd == dist.update(cell_index(sz, x + dir4(k).0, y + dir4(k).1), (dist_at(dist, sz, x, y) + 1) as i32),
        nr == reached.insert(cell_index(sz, x + dir4(k).0, y + dir4(k).1)),
    ensures
        bfs_labels(nd, mask, sz, starts, nr),
        nr.len() == reached.len() + 1,
        forall|u: int, v: int| in_square(sz, u, v) && !(u == x + dir4(k).0 && v == y + dir4(k).1)
            ==> #[trigger] dist_at(nd, sz, u, v) == dist_at(dist, sz, u, v),
        dist_at(nd, sz, x + dir4(k).0, y + dir4(k).1) == dist_at(dist, sz, x, y) + 1,
{
    reveal(bfs_labels);
    let nx = x + dir4(k).0;
    let ny = y + dir4(k).1;
    let n = sz * sz;
    lemma_cell_index(sz, x, y);
    lemma_cell_index(sz, nx, ny);
    let ni = cell_index(sz, nx, ny);
    let d = dist_at(dist, sz, x, y);
    assert(d < reached.len());
    assert(nd[ni] == d + 1);
    assert(!reached.contains(ni));
    assert(nr.subset_of(vstd::set_lib::set_int_range(0, n)));
    vstd::set_lib::lemma_int_range(0, n);
    vstd::set_lib::lemma_len_subset(nr, vstd::set_lib::set_int_range(0, n));
    assert forall|u: int, v: int| in_square(sz, u, v) && !(u == nx && v == ny)
        implies #[trigger] dist_at(nd, sz, u, v) == dist_at(dist, sz, u, v) by {
        lemma_cell_index(sz, u, v);
        if cell_index(sz, u, v) == ni {
            lemma_cell_index_inj(sz, u, v, nx, ny);
        }
    }
    assert forall|u: int, v: int| in_square(sz, u, v) && #[trigger] dist_at(nd, sz, u, v) == 0
        implies mask[cell_index(sz, u, v)] && starts.contains((u as i32, v as i32)) by {
        if !(u == nx && v == ny) {
            assert(dist_at(dist, sz, u, v) == 0);
        }
    }
    assert forall|u: int, v: int| in_square(sz, u, v) && #[trigger] dist_at(nd, sz, u, v) > 0
        implies mask[cell_index(sz, u, v)] && has_nbr_at(nd, sz, u, v, dist_at(nd, sz, u, v) - 1) by {
        if u == nx && v == ny {
            let back: int = if k == 0 { 1 } else if k == 1 { 0 } else if k == 2 { 3 } else { 2 };
            assert(u + dir4(back).0 == x && v + dir4(back).1 == y);
            assert(dist_at(nd, sz, u + dir4(back).0, v + dir4(back).1) == d);
        } else {
            assert(dist_at(dist, sz, u, v) > 0);
            assert(has_nbr_at(dist, sz, u, v, dist_at(dist, sz, u, v) - 1));
            let w = choose|w: int| 0 <= w < 4 && in_square(sz, u + dir4(w).0, v + dir4(w).1)
                && #[trigger] dist_at(dist, sz, u + dir4(w).0, v + dir4(w).1) == dist_at(dist, sz, u, v) - 1;
            if u + dir4(w).0 == nx && v + dir4(w).1 == ny {
                assert(false);
            }
            assert(dist_at(nd, sz, u + dir4(w).0, v + dir4(w).1) == dist_at(dist, sz, u + dir4(w).0, v + dir4(w).1));
        }
    }
    assert forall|j: int| 0 <= j < starts.len() && mask[cell_index(sz, (#[trigger] starts[j]).0 as int, starts[j].1 as int)]
        implies dist_at(nd, sz, starts[j].0 as int, starts[j].1 as int) == 0 by {
        assert(dist_at(dist, sz, starts[j].0 as int, starts[j].1 as int) == 0);
    }
    assert forall|j: int| 0 <= j < n implies (#[trigger] nd[j] >= 0 <==> nr.contains(j)) && nd[j] >= -1 && nd[j] < nr.len() by {
        if j != ni {
            assert(nd[j] == dist[j]);
        }
    }
}

/// Labelling and queueing the neighbour in direction `k` of the cell being expanded keeps the
/// frontier valid.
#[verifier::spinoff_prover]
proof fn lemma_bfs_visit_frontier(dist: Seq<i32>, mask: Seq<bool>, sz: int, queue: Seq<(i32, i32)>,
    x: int, y: int, k: int, nd: Seq<i32>, nq: Seq<(i32, i32)>)
    requires
        bfs_frontier(dist, mask, sz, queue, (x, y), true),
        side_ok(sz),
        in_square(sz, x, y),
        0 <= k < 4,
        in_square(sz, x + dir4(k).0, y + dir4(k).1),
        forall|u: int, v: int| in_square(sz, u, v) && !(u == x + dir4(k).0 && v == y + dir4(k).1)
            ==> #[trigger] dist_at(nd, sz, u, v) == dist_at(dist, sz, u, v),
        dist_at(nd, sz, x + dir4(k).0, y + dir4(k).1) >= 0,
        first_nbrs_reached(dist, mask, sz, x, y, k),
        nq == queue.push(((x + dir4(k).0) as i32, (y + dir4(k).1) as i32)),
    ensures
        bfs_frontier(nd, mask, sz, nq, (x, y), true),
        first_nbrs_reached(nd, mask, sz, x, y, k + 1),
{
    reveal(bfs_frontier);
    let nx = x + dir4(k).0;
    let ny = y + dir4(k).1;
    lemma_cell_index(sz, nx, ny);
    assert(nx as i32 as int == nx && ny as i32 as int == ny);
    assert forall|j: int| 0 <= j < nq.len() implies in_square(sz, (#[trigger] nq[j]).0 as int, nq[j].1 as int)
        && dist_at(nd, sz, nq[j].0 as int, nq[j].1 as int) >= 0 by {
        if j < queue.len() {
            assert(nq[j] == queue[j]);
        } else {
            assert(nq[j] == (nx as i32, ny as i32));
        }
    }
    assert forall|cx: int, cy: int| in_square(sz, cx, cy) && #[trigger] dist_at(nd, sz, cx, cy) >= 0
        implies nq.contains((cx as i32, cy as i32)) || nbrs_reached(nd, mask, sz, cx, cy) || (cx == x && cy == y) by {
        if cx == nx && cy == ny {
            assert(nq[nq.len() - 1] == (nx as i32, ny as i32));
        } else {
            assert(dist_at(dist, sz, cx, cy) >= 0);
            if queue.contains((cx as i32, cy as i32)) {
                let m = choose|m: int| 0 <= m < queue.len() && queue[m] == (cx as i32, cy as i32);
                assert(nq[m] == (cx as i32, cy as i32));
            } else if !(cx == x && cy == y) {
                assert(nbrs_reached(dist, mask, sz, cx, cy));
                assert forall|w: int| 0 <= w < 4 && in_square(sz, cx + dir4(w).0, cy + dir4(w).1)
                    && mask[cell_index(sz, cx + dir4(w).0, cy + dir4(w).1)]
                    implies #[trigger] dist_at(nd, sz, cx + dir4(w).0, cy + dir4(w).1) >= 0 by {
                    if cx + dir4(w).0 == nx && cy + dir4(w).1 == ny {
                    } else {
                        assert(dist_at(dist, sz, cx + dir4(w).0, cy + dir4(w).1) >= 0);
                    }
                }
            }
        }
    }
    assert forall|j: int| 0 <= j < k + 1 && in_square(sz, x + dir4(j).0, y + dir4(j).1)
        && mask[cell_index(sz, x + dir4(j).0, y + dir4(j).1)]
        implies #[trigger] dist_at(nd, sz, x + dir4(j).0, y + dir4(j).1) >= 0 by {
        if j < k {
            assert(dist_at(dist, sz, x + dir4(j).0, y + dir4(j).1) >= 0);
        }
    }
}

/// Taking the front cell off the queue: it becomes the cell being expanded.
proof fn lemma_bfs_pop(dist: Seq<i32>, mask: Seq<bool>, sz: int, starts: Seq<(i32, i32)>, queue: Seq<(i32, i32)>, reached: Set<int>)
    requires
        bfs_inv(dist, mask, sz, starts, queue, reached, (0, 0), false),
        queue.len() > 0,
    ensures
        in_square(sz, queue[0].0 as int, queue[0].1 as int),
        dist_at(dist, sz, queue[0].0 as int, queue[0].1 as int) >= 0,
        dist_at(dist, sz, queue[0].0 as int, queue[0].1 as int) < reached.len(),
        reached.len() <= sz * sz,
        side_ok(sz),
        mask.len() == sz * sz,
        dist.len() == sz * sz,
        bfs_inv(dist, mask, sz, starts, queue.drop_first(), reached, (queue[0].0 as int, queue[0].1 as int), true),
{
    reveal(bfs_frontier);
    lemma_bfs_labels_basic(dist, mask, sz, starts, reached);
    let (x, y) = queue[0];
    let q = queue.drop_first();
    lemma_cell_index(sz, x as int, y as int);
    assert forall|cx: int, cy: int| in_square(sz, cx, cy) && #[trigger] dist_at(dist, sz, cx, cy) >= 0
        implies q.contains((cx as i32, cy as i32)) || nbrs_reached(dist, mask, sz, cx, cy) || (cx == x && cy == y) by {
        lemma_cell_index(sz, cx, cy);
        if queue.contains((cx as i32, cy as i32)) && !(cx == x && cy == y) {
            let m = choose|m: int| 0 <= m < queue.len() && queue[m] == (cx as i32, cy as i32);
            assert(m != 0);
            assert(q[m - 1] == (cx as i32, cy as i32));
        }
    }
    assert forall|j: int| 0 <= j < q.len() implies in_square(sz, (#[trigger] q[j]).0 as int, q[j].1 as int)
        && dist_at(dist, sz, q[j].0 as int, q[j].1 as int) >= 0 by {
        assert(q[j] == queue[j + 1]);
    }
}

/// Once every neighbour of the expanded cell is reached, it no longer needs an exception.
proof fn lemma_bfs_done(dist: Seq<i32>, mask: Seq<bool>, sz: int, starts: Seq<(i32, i32)>, queue: Seq<(i32, i32)>, reached: Set<int>, x: int, y: int)
    requires
        bfs_inv(dist, mask, sz, starts, queue, reached, (x, y), true),
        first_nbrs_reached(dist, mask, sz, x, y, 4),
    ensures
        bfs_inv(dist, mask, sz, starts, queue, reached, (0, 0), false),
{
    reveal(bfs_frontier);
    assert(nbrs_reached(dist, mask, sz, x, y));
}

/// With the queue empty the labelling is complete.
proof fn lemma_bfs_finish(dist: Seq<i32>, mask: Seq<bool>, sz: int, starts: Seq<(i32, i32)>, queue: Seq<(i32, i32)>, reached: Set<int>,
    d: int)
    requires
        bfs_inv(dist, mask, sz, starts, queue, reached, (0, 0), false),
        bfs_order(dist, sz, queue, (0, 0), false, d),
        queue.len() == 0,
    ensures
        bfs_ok(dist, mask, sz, starts),
{
    reveal(bfs_labels);
    reveal(bfs_frontier);
    reveal(bfs_order);
    assert forall|x: int, y: int| in_square(sz, x, y) implies #[trigger] dist_at(dist, sz, x, y) >= -1 by {
        lemma_cell_index(sz, x, y);
    }
}

/// `path` is a walk through passable cells of the grid by orthogonal steps, from a start.
pub open spec fn passable_walk(mask: Seq<bool>, size: int, starts: Seq<(i32, i32)>, path: Seq<(int, int)>) -> bool {
    &&& path.len() > 0
    &&& starts.contains((path[0].0 as i32, path[0].1 as i32))
    &&& forall|i: int| 0 <= i < path.len() ==> in_square(size, (#[trigger] path[i]).0, path[i].1)
        && mask[cell_index(size, path[i].0, path[i].1)]
    &&& forall|i: int| 0 <= i < path.len() - 1 ==> exists|k: int| 0 <= k < 4
        && #[trigger] path[i + 1] == (path[i].0 + dir4(k).0, path[i].1 + dir4(k).1)
}

/// A breadth-first label is no longer than any passable walk from a start: every cell a walk of
/// `i` steps reaches is labelled, at most `i`.
#[verifier::spinoff_prover]
pub proof fn law_bfs_shortest(dist: Seq<i32>, mask: Seq<bool>, size: int, starts: Seq<(i32, i32)>, path: Seq<(int, int)>, i: int)
    requires
        bfs_ok(dist, mask, size, starts),
        side_ok(size),
        passable_walk(mask, size, starts, path),
        0 <= i < path.len(),
    ensures
        0 <= dist_at(dist, size, path[i].0, path[i].1) <= i,
    decreases i,
{
    let c = path[i];
    assert(in_square(size, c.0, c.1) && mask[cell_index(size, c.0, c.1)]);
    if i == 0 {
        let s0 = (c.0 as i32, c.1 as i32);
        let k = choose|k: int| 0 <= k < starts.len() && starts[k] == s0;
        lemma_start_labelled(dist, mask, size, starts, k, c);
    } else {
        law_bfs_shortest(dist, mask, size, starts, path, i - 1);
        let p = path[i - 1];
        assert(in_square(size, p.0, p.1));
        let k = choose|k: int| 0 <= k < 4 && #[trigger] path[(i - 1) + 1] == (path[i - 1].0 + dir4(k).0, path[i - 1].1 + dir4(k).1);
        lemma_step_labelled(dist, mask, size, starts, p, k);
    }
}

proof fn lemma_start_labelled(dist: Seq<i32>, mask: Seq<bool>, size: int, starts: Seq<(i32, i32)>, k: int, c: (int, int))
    requires
        bfs_ok(dist, mask, size, starts),
        0 <= k < starts.len(),
        in_square(size, c.0, c.1),
        side_ok(size),
        starts[k] == (c.0 as i32, c.1 as i32),
        mask[cell_index(size, c.0, c.1)],
    ensures
        dist_at(dist, size, c.0, c.1) == 0,
{
    lemma_cell_index(size, c.0, c.1);
    assert(starts[k].0 as int == c.0 && starts[k].1 as int == c.1);
    assert(mask[cell_index(size, (starts[k]).0 as int, starts[k].1 as int)]);
}

proof fn lemma_step_labelled(dist: Seq<i32>, mask: Seq<bool>, size: int, starts: Seq<(i32, i32)>, p: (int, int), k: int)
    requires
        bfs_ok(dist, mask, size, starts),
        in_square(size, p.0, p.1),
        dist_at(dist, size, p.0, p.1) >= 0,
        0 <= k < 4,
        in_square(size, p.0 + dir4(k).0, p.1 + dir4(k).1),
        mask[cell_index(size, p.0 + dir4(k).0, p.1 + dir4(k).1)],
    ensures
        0 <= dist_at(dist, size, p.0 + dir4(k).0, p.1 + dir4(k).1) <= dist_at(dist, size, p.0, p.1) + 1,
{
    assert(nbrs_reached(dist, mask, size, p.0, p.1));
    assert(nbrs_within_one(dist, size, p.0, p.1));
}

/// The breadth-first labelling of the passable cells `mask` from `starts` (all on the grid).
fn bfs_over_mask(size: i32, mask: &Vec<bool>, starts: &[(i32, i32)]) -> (dist: Vec<i32>)
    requires
        side_ok(size as int),
        mask@.len() == size * size,
        forall|k: int| 0 <= k < starts@.len() ==> in_square(size as int, (#[trigger] starts@[k]).0 as int, starts@[k].1 as int),
    ensures
        bfs_ok(dist@, mask@, size as int, starts@),
{
    let ghost sz = size as int;
    let n = (size * size) as usize;
    let mut dist: Vec<i32> = Vec::new();
    let mut i: usize = 0;
    while i < n
        invariant
            i <= n,
            dist@.len() == i,
            forall|j: int| 0 <= j < i ==> dist@[j] == -1,
        decreases n - i,
    {
        dist.push(-1);
        i = i + 1;
    }
    let ghost mut reached: Set<int> = Set::empty();
    let mut queue: VecDeque<(i32, i32)> = VecDeque::new();
    proof {
        assert forall|x: int, y: int| in_square(sz, x, y) implies #[trigger] dist_at(dist@, sz, x, y) == -1 by {
            lemma_cell_index(sz, x, y);
        }
    }
    let mut k: usize = 0;
    while k < starts.len()
        invariant
            side_ok(sz),
            sz == size,
            n == sz * sz,
            mask@.len() == n,
            dist@.len() == n,
            k <= starts@.len(),
            forall|k: int| 0 <= k < starts@.len() ==> in_square(sz, (#[trigger] starts@[k]).0 as int, starts@[k].1 as int),
            forall|j: int| 0 <= j < n ==> dist@[j] == -1 || dist@[j] == 0,
            forall|x: int, y: int| in_square(sz, x, y) && #[trigger] dist_at(dist@, sz, x, y) == 0
                ==> mask@[cell_index(sz, x, y)] && starts@.contains((x as i32, y as i32)),
            forall|j: int| 0 <= j < k && mask@[cell_index(sz, (#[trigger] starts@[j]).0 as int, starts@[j].1 as int)]
                ==> dist_at(dist@, sz, starts@[j].0 as int, starts@[j].1 as int) == 0,
            forall|j: int| 0 <= j < queue@.len() ==> in_square(sz, (#[trigger] queue@[j]).0 as int, queue@[j].1 as int)
                && dist_at(dist@, sz, queue@[j].0 as int, queue@[j].1 as int) >= 0,
            forall|x: int, y: int| in_square(sz, x, y) && #[trigger] dist_at(dist@, sz, x, y) >= 0 ==> queue@.contains((x as i32, y as i32)),
            forall|j: int| 0 <= j < n ==> (dist@[j] >= 0 <==> reached.contains(j)),
            forall|j: int| reached.contains(j) ==> 0 <= j < n,
            reached.finite(),
            reached.len() <= n,
            forall|j: int| 0 <= j < n ==> dist@[j] < reached.len(),
        decreases starts@.len() - k,
    {
        let (sx, sy) = starts[k];
        proof { lemma_cell_index(sz, sx as int, sy as int); }
        let si = (sy * size + sx) as usize;
        if mask[si] && dist[si] < 0 {
            let ghost old_dist = dist@;
            let ghost old_q = queue@;
            dist.set(si, 0);
            queue.push_back((sx, sy));
            proof {
                assert(!reached.contains(si as int));
                reached = reached.insert(si as int);
                assert(reached.subset_of(vstd::set_lib::set_int_range(0, n as int)));
                vstd::set_lib::lemma_int_range(0, n as int);
                vstd::set_lib::lemma_len_subset(reached, vstd::set_lib::set_int_range(0, n as int));
                assert(starts@[k as int] == (sx, sy));
                assert forall|x: int, y: int| in_square(sz, x, y) && #[trigger] dist_at(dist@, sz, x, y) == 0
                    implies mask@[cell_index(sz, x, y)] && starts@.contains((x as i32, y as i32)) by {
                    lemma_cell_index(sz, x, y);
                    if cell_index(sz, x, y) == si {
                        lemma_cell_index_inj(sz, x, y, sx as int, sy as int);
                    } else {
                        assert(dist_at(old_dist, sz, x, y) == 0);
                    }
                }
                assert forall|j: int| 0 <= j < queue@.len() implies in_square(sz, (#[trigger] queue@[j]).0 as int, queue@[j].1 as int)
                    && dist_at(dist@, sz, queue@[j].0 as int, queue@[j].1 as int) >= 0 by {
                    if j < old_q.len() {
                        assert(queue@[j] == old_q[j]);
                        lemma_cell_index(sz, old_q[j].0 as int, old_q[j].1 as int);
                    }
                }
                assert forall|x: int, y: int| in_square(sz, x, y) && #[trigger] dist_at(dist@, sz, x, y) >= 0
                    implies queue@.contains((x as i32, y as i32)) by {
                    lemma_cell_index(sz, x, y);
                    if cell_index(sz, x, y) == si {
                        lemma_cell_index_inj(sz, x, y, sx as int, sy as int);
                        assert(queue@[queue@.len() - 1] == (sx, sy));
                    } else {
                        assert(dist_at(old_dist, sz, x, y) >= 0);
                        let m = choose|m: int| 0 <= m < old_q.len() && old_q[m] == (x as i32, y as i32);
                        assert(queue@[m] == (x as i32, y as i32));
                    }
                }
                assert forall|j: int| 0 <= j <= k && mask@[cell_index(sz, (#[trigger] starts@[j]).0 as int, starts@[j].1 as int)]
                    implies dist_at(dist@, sz, starts@[j].0 as int, starts@[j].1 as int) == 0 by {
                    lemma_cell_index(sz, starts@[j].0 as int, starts@[j].1 as int);
                }
            }
        } else {
            proof {
                assert forall|j: int| 0 <= j <= k && mask@[cell_index(sz, (#[trigger] starts@[j]).0 as int, starts@[j].1 as int)]
                    implies dist_at(dist@, sz, starts@[j].0 as int, starts@[j].1 as int) == 0 by {
                    if j == k {
                        assert(starts@[k as int] == (sx, sy));
                    }
                }
            }
        }
        k = k + 1;
    }
    proof {
        reveal(bfs_labels);
        reveal(bfs_frontier);
        assert forall|x: int, y: int| in_square(sz, x, y) && #[trigger] dist_at(dist@, sz, x, y) > 0
            implies mask@[cell_index(sz, x, y)] && has_nbr_at(dist@, sz, x, y, dist_at(dist@, sz, x, y) - 1) by {
            lemma_cell_index(sz, x, y);
        }
        assert(bfs_inv(dist@, mask@, sz, starts@, queue@, reached, (0, 0), false));
        reveal(bfs_order);
        assert forall|i: int| 0 <= i < queue@.len() implies 0 <= #[trigger] qd(dist@, sz, queue@, i) <= 0 + 1 by {
            lemma_cell_index(sz, queue@[i].0 as int, queue@[i].1 as int);
        }
        assert forall|i: int, j: int| 0 <= i < j < queue@.len() implies qd(dist@, sz, queue@, i) <= qd(dist@, sz, queue@, j) by {
            lemma_cell_index(sz, queue@[i].0 as int, queue@[i].1 as int);
            lemma_cell_index(sz, queue@[j].0 as int, queue@[j].1 as int);
        }
        assert(bfs_order(dist@, sz, queue@, (0, 0), false, 0));
    }
    let ghost mut depth: int = 0;
    while queue.len() > 0
        invariant
            sz == size,
            n == sz * sz,
            bfs_inv(dist@, mask@, sz, starts@, queue@, reached, (0, 0), false),
            bfs_order(dist@, sz, queue@, (0, 0), false, depth),
        decreases n - reached.len(), queue@.len(),
    {
        let ghost q0 = queue@;
        let ghost r0 = reached.len();
        proof {
            lemma_bfs_pop(dist@, mask@, sz, starts@, queue@, reached);
            lemma_bfs_labels_basic(dist@, mask@, sz, starts@, reached);
            reveal(bfs_frontier);
            lemma_bfs_order_pop(dist@, sz, queue@, depth);
            depth = qd(dist@, sz, queue@, 0);
        }
        let (x, y) = queue.pop_front().unwrap();
        assert(q0[0] == (x, y));
        assert(queue@ == q0.drop_first());
        proof { lemma_cell_index(sz, x as int, y as int); }
        let dirs: [(i32, i32); 4] = [(1, 0), (-1, 0), (0, 1), (0, -1)];
        let here = (y * size + x) as usize;
        let d = dist[here];
        let mut k: usize = 0;
        while k < 4
            invariant
                sz == size,
                n == sz * sz,
                side_ok(sz),
                dist@.len() == n,
                mask@.len() == n,
                in_square(sz, x as int, y as int),
                here == cell_index(sz, x as int, y as int),
                here < n,
                d == dist@[here as int],
                0 <= d < reached.len(),
                reached.len() <= n,
                dirs@ == seq![(1i32, 0i32), (-1i32, 0i32), (0i32, 1i32), (0i32, -1i32)],
                k <= 4,
                bfs_inv(dist@, mask@, sz, starts@, queue@, reached, (x as int, y as int), true),
                bfs_order(dist@, sz, queue@, (x as int, y as int), true, depth),
                depth == d,
                first_nbrs_reached(dist@, mask@, sz, x as int, y as int, k as int),
                reached.len() + q0.len() == r0 + queue@.len() + 1,
                queue@.len() + 1 >= q0.len(),
            decreases 4 - k,
        {
            let (dx, dy) = dirs[k];
            assert((dx as int, dy as int) == dir4(k as int));
            let nx = x + dx;
            let ny = y + dy;
            if nx >= 0 && ny >= 0 && nx < size && ny < size {
                proof { lemma_cell_index(sz, nx as int, ny as int); }
                let ni = (ny * size + nx) as usize;
                if dist[ni] < 0 && mask[ni] {
                    assert(ni != here);
                    let ghost od = dist@;
                    let ghost oq = queue@;
                    let ghost or = reached;
                    assert(od[here as int] == d);
                    dist.set(ni, d + 1);
                    assert(dist@ == od.update(ni as int, (d + 1) as i32));
                    queue.push_back((nx, ny));
                    proof {
                        reached = reached.insert(ni as int);
                        lemma_bfs_visit_labels(od, mask@, sz, starts@, or, x as int, y as int, k as int, dist@, reached);
                        lemma_bfs_order_visit(od, mask@, sz, oq, x as int, y as int, k as int, depth, dist@, queue@);
                        lemma_bfs_visit_frontier(od, mask@, sz, oq, x as int, y as int, k as int, dist@, queue@);
                        lemma_bfs_labels_basic(dist@, mask@, sz, starts@, reached);
                    }
                    assert(dist@[here as int] == d);
                }
            }
            k = k + 1;
        }
        proof {
            reveal(bfs_frontier);
            lemma_bfs_order_done(dist@, mask@, sz, queue@, x as int, y as int, depth);
            lemma_bfs_done(dist@, mask@, sz, starts@, queue@, reached, x as int, y as int);
            assert(reached.len() > r0 || queue@.len() < q0.len());
        }
    }
    proof { lemma_bfs_finish(dist@, mask@, sz, starts@, queue@, reached, depth); }
    dist
}

/// Orthogonal breadth-first distances over the `size` by `size` grid from `starts` through the
/// cells `passable` accepts; -1 marks a cell that cannot be reached.
pub fn bfs_dist<F: Fn(i32, i32) -> bool>(size: i32, passable: F, starts: &[(i32, i32)]) -> (dist: Vec<i32>)
    requires
        side_ok(size as int),
        forall|x: i32, y: i32| call_requires(passable, (x, y)),
        forall|k: int| 0 <= k < starts@.len() ==> in_square(size as int, (#[trigger] starts@[k]).0 as int, starts@[k].1 as int),
    ensures
        exists|mask: Seq<bool>| {
            &&& mask.len() == size * size
            &&& (forall|x: int, y: int| in_square(size as int, x, y)
                ==> call_ensures(passable, (x as i32, y as i32), #[trigger] mask[cell_index(size as int, x, y)]))
            &&& #[trigger] bfs_ok(dist@, mask, size as int, starts@)
        },
{
    let mask = passability_mask(size, &passable);
    bfs_over_mask(size, &mask, starts)
}

/// Sum of the weights of the first `k` entries.
pub open spec fn weight_prefix<T>(table: Seq<(u32, T)>, k: int) -> int
    decreases k,
{
    if k <= 0 { 0 } else { weight_prefix(table, k - 1) + table[k - 1].0 }
}

/// The entry a roll of `roll` lands on: the first whose running weight passes it.
pub open spec fn lands_on<T>(table: Seq<(u32, T)>, roll: int, i: int) -> bool {
    0 <= i < table.len() && weight_prefix(table, i) <= roll < weight_prefix(table, i + 1)
}

/// A weighted random pick: a roll uniform below the total weight, and the entry it lands on.
pub fn weighted<T: Copy>(rng: &mut SmallRng, table: &[(u32, T)]) -> (r: T)
    requires
        weight_prefix(table@, table@.len() as int) > 0,
        forall|k: int| 0 <= k <= table@.len() ==> #[trigger] weight_prefix(table@, k) <= u32::MAX,
    ensures
        exists|roll: int, i: int| 0 <= roll < weight_prefix(table@, table@.len() as int)
            && #[trigger] lands_on(table@, roll, i) && r == table@[i].1,
{
    let total = weight_total(table);
    let roll = small_range_usize(rng, 0, total as usize);
    weighted_at(table, roll)
}

/// The total weight of the table.
fn weight_total<T: Copy>(table: &[(u32, T)]) -> (total: u32)
    requires
        forall|k: int| 0 <= k <= table@.len() ==> #[trigger] weight_prefix(table@, k) <= u32::MAX,
    ensures
        total == weight_prefix(table@, table@.len() as int),
{
    let mut total: u32 = 0;
    let mut k: usize = 0;
    while k < table.len()
        invariant
            k <= table@.len(),
            total == weight_prefix(table@, k as int),
            forall|k: int| 0 <= k <= table@.len() ==> #[trigger] weight_prefix(table@, k) <= u32::MAX,
        decreases table@.len() - k,
    {
        assert(weight_prefix(table@, k + 1) <= u32::MAX);
        total = total + table[k].0;
        k = k + 1;
    }
    total
}

/// What the lair draws `idxs` pick from `lairs`, each draw taking out the lair of its number
/// (the last lair moving into its place): the lairs picked, in order, and those left.
pub open spec fn lair_picks(lairs: Seq<(i32, i32)>, idxs: Seq<usize>) -> (Seq<(i32, i32)>, Seq<(i32, i32)>)
    decreases idxs.len(),
{
    if idxs.len() == 0 {
        (Seq::empty(), lairs)
    } else {
        let prev = lair_picks(lairs, idxs.drop_last());
        let i = idxs.last() as int;
        (prev.0.push(prev.1[i]), prev.1.update(i, prev.1.last()).drop_last())
    }
}

/// The creature spawns `spawns` are what the lair draws `idxs` and the creature rolls `rolls` give:
/// the `i`th at the `i`th lair picked, of the creature its roll lands on.
pub open spec fn creatures_drawn(lairs: Seq<(i32, i32)>, theme: CaveTheme, spawns: Seq<(i32, i32, CaveSpawn)>, idxs: Seq<usize>, rolls: Seq<int>) -> bool {
    let k = spawns.len();
    &&& lair_picks(lairs, idxs).0.len() == k
    &&& idxs.len() == k && rolls.len() == k
    &&& forall|i: int| 0 <= i < k ==> (#[trigger] idxs[i]) < lairs.len() - i
    &&& forall|i: int| 0 <= i < k ==> lair_picks(lairs, idxs).0[i] == ((#[trigger] spawns[i]).0, spawns[i].1)
    &&& forall|i: int| 0 <= i < k ==> 0 <= #[trigger] rolls[i] < weight_prefix(creature_table(theme), creature_table(theme).len() as int)
        && spawns[i].2 is Creature && creature_at(theme, rolls[i], spawns[i].2->Creature_0)
}

/// The lairs the draws `idxs` pick, in order (see `lair_picks`).
pub fn lairs_picked(lairs: &Vec<(i32, i32)>, idxs: &Vec<usize>) -> (picked: Vec<(i32, i32)>)
    requires
        idxs@.len() <= lairs@.len(),
        forall|i: int| 0 <= i < idxs@.len() ==> (#[trigger] idxs@[i]) < lairs@.len() - i,
    ensures
        picked@ == lair_picks(lairs@, idxs@).0,
{
    let mut rest: Vec<(i32, i32)> = Vec::new();
    let mut j: usize = 0;
    while j < lairs.len()
        invariant
            j <= lairs@.len(),
            rest@ == lairs@.take(j as int),
        decreases lairs@.len() - j,
    {
        rest.push(lairs[j]);
        proof {
            assert(lairs@.take(j + 1) =~= lairs@.take(j as int).push(lairs@[j as int]));
        }
        j = j + 1;
    }
    proof {
        assert(lairs@.take(j as int) =~= lairs@);
    }
    let mut picked: Vec<(i32, i32)> = Vec::new();
    let mut k: usize = 0;
    proof {
        assert(idxs@.take(0) =~= Seq::<usize>::empty());
        assert(picked@ =~= Seq::<(i32, i32)>::empty());
    }
    while k < idxs.len()
        invariant
            idxs@.len() <= lairs@.len(),
            forall|i: int| 0 <= i < idxs@.len() ==> (#[trigger] idxs@[i]) < lairs@.len() - i,
            k <= idxs@.len(),
            rest@.len() == lairs@.len() - k,
            lair_picks(lairs@, idxs@.take(k as int)) == (picked@, rest@),
        decreases idxs@.len() - k,
    {
        let i = idxs[k];
        proof {
            assert(idxs@.take(k + 1).drop_last() =~= idxs@.take(k as int));
        }
        let p = rest.swap_remove(i);
        picked.push(p);
        k = k + 1;
    }
    proof {
        assert(idxs@.take(k as int) =~= idxs@);
    }
    picked
}

/// Some lair draws and creature rolls give the creature spawns `spawns`.
pub open spec fn creatures_from_draws(lairs: Seq<(i32, i32)>, theme: CaveTheme, spawns: Seq<(i32, i32, CaveSpawn)>) -> bool {
    exists|idxs: Seq<usize>, rolls: Seq<int>| #[trigger] creatures_drawn(lairs, theme, spawns, idxs, rolls)
}

/// The creature a roll of `roll` gives on the theme's table.
pub open spec fn creature_at(theme: CaveTheme, roll: int, c: CaveCreature) -> bool {
    exists|j: int| #[trigger] lands_on(creature_table(theme), roll, j) && c == creature_table(theme)[j].1
}

/// The entry a roll of `roll` lands on.
pub fn weighted_at<T: Copy>(table: &[(u32, T)], roll: usize) -> (r: T)
    requires
        roll < weight_prefix(table@, table@.len() as int),
        forall|k: int| 0 <= k <= table@.len() ==> #[trigger] weight_prefix(table@, k) <= u32::MAX,
    ensures
        exists|i: int| #[trigger] lands_on(table@, roll as int, i) && r == table@[i].1,
{
    let ghost total = weight_prefix(table@, table@.len() as int);
    let mut i: usize = 0;
    let mut acc: u64 = 0;
    while i < table.len()
        invariant
            i <= table@.len(),
            acc == weight_prefix(table@, i as int),
            acc <= roll,
            roll < total,
            total == weight_prefix(table@, table@.len() as int),
            forall|k: int| 0 <= k <= table@.len() ==> #[trigger] weight_prefix(table@, k) <= u32::MAX,
        decreases table@.len() - i,
    {
        assert(weight_prefix(table@, i + 1) <= u32::MAX);
        acc = acc + table[i].0 as u64;
        if (roll as u64) < acc {
            assert(lands_on(table@, roll as int, i as int));
            return table[i].1;
        }
        i = i + 1;
    }
    proof {
        assert(weight_prefix(table@, table@.len() as int) == acc);
    }
    table[0].1
}

/// The flavor of one underground level: its creatures, liquids and decorations.
#[derive(Clone, Copy, Debug, PartialEq, Eq, Structural)]
pub enum CaveTheme {
    /// Dirt patches, scree, boulders, scavengers.
    Rocky,
    /// Glowing pools, mushroom thickets, spore beasts.
    Fungal,
    /// Half-drowned galleries with sand banks and deep water.
    Flooded,
    /// Crystal veins in the walls, shards underfoot, mantis predators.
    Crystal,
    /// Crimson seeps and lava cores; deepest levels only.
    Molten,
}

/// The theme weights at each depth: first level, second level, and deeper.
pub open spec fn theme_table(depth: usize) -> Seq<(u32, CaveTheme)> {
    if depth == 1 {
        seq![(4u32, CaveTheme::Rocky), (3u32, CaveTheme::Fungal), (3u32, CaveTheme::Flooded)]
    } else if depth == 2 {
        seq![(2u32, CaveTheme::Rocky), (3u32, CaveTheme::Fungal), (2u32, CaveTheme::Flooded), (3u32, CaveTheme::Crystal)]
    } else {
        seq![(1u32, CaveTheme::Rocky), (2u32, CaveTheme::Fungal), (4u32, CaveTheme::Crystal), (3u32, CaveTheme::Molten)]
    }
}

/// A theme some roll of the depth's table lands on.
pub open spec fn theme_rolled(depth: usize, t: CaveTheme) -> bool {
    exists|roll: int, i: int| 0 <= roll < weight_prefix(theme_table(depth), theme_table(depth).len() as int)
        && #[trigger] lands_on(theme_table(depth), roll, i) && t == theme_table(depth)[i].1
}

/// The theme a roll of `roll` lands on in the depth's table.
pub open spec fn theme_at(depth: usize, roll: int, t: CaveTheme) -> bool {
    exists|i: int| #[trigger] lands_on(theme_table(depth), roll, i) && t == theme_table(depth)[i].1
}

/// Total weight of theme `t` in a theme table.
pub open spec fn theme_weight(table: Seq<(u32, CaveTheme)>, t: CaveTheme) -> int
    decreases table.len(),
{
    if table.len() == 0 {
        0
    } else {
        theme_weight(table.drop_last(), t) + if table.last().1 == t { table.last().0 as int } else { 0 }
    }
}

/// How likely each theme is by depth, theme by theme: rocky 4, 2, then 1 from the third level
/// down; fungal 3, 3, then 2; flooded 3, 2, then never; crystal never on the first level, 3 on
/// the second, 4 deeper; molten only from the third level down (3). Every table weighs 10 in all.
pub proof fn law_theme_weights(depth: usize, t: CaveTheme)
    ensures
        theme_weight(theme_table(depth), t) == match t {
            CaveTheme::Rocky => if depth == 1 { 4int } else if depth == 2 { 2 } else { 1 },
            CaveTheme::Fungal => if depth == 1 { 3int } else if depth == 2 { 3 } else { 2 },
            CaveTheme::Flooded => if depth == 1 { 3int } else if depth == 2 { 2 } else { 0 },
            CaveTheme::Crystal => if depth == 1 { 0int } else if depth == 2 { 3 } else { 4 },
            CaveTheme::Molten => if depth == 1 || depth == 2 { 0int } else { 3 },
        },
        weight_prefix(theme_table(depth), theme_table(depth).len() as int) == 10,
{
    reveal_with_fuel(theme_weight, 5);
    reveal_with_fuel(weight_prefix, 5);
}

/// The theme the rolls give: the first roll's, or the second's when the first repeats `prev`.
pub open spec fn theme_rule(depth: usize, prev: Option<CaveTheme>, roll1: int, roll2: int, t: CaveTheme) -> bool {
    exists|first: CaveTheme| #[trigger] theme_at(depth, roll1, first)
        && if prev == Some(first) { theme_at(depth, roll2, t) } else { t == first }
}

/// The depth's table of theme weights.
fn theme_weights(depth: usize) -> (table: Vec<(u32, CaveTheme)>)
    ensures
        table@ == theme_table(depth),
        weight_prefix(table@, table@.len() as int) == 10,
        forall|k: int| 0 <= k <= table@.len() ==> #[trigger] weight_prefix(table@, k) <= u32::MAX,
{
    let table: Vec<(u32, CaveTheme)> = if depth == 1 {
        vec![(4, CaveTheme::Rocky), (3, CaveTheme::Fungal), (3, CaveTheme::Flooded)]
    } else if depth == 2 {
        vec![(2, CaveTheme::Rocky), (3, CaveTheme::Fungal), (2, CaveTheme::Flooded), (3, CaveTheme::Crystal)]
    } else {
        vec![(1, CaveTheme::Rocky), (2, CaveTheme::Fungal), (4, CaveTheme::Crystal), (3, CaveTheme::Molten)]
    };
    assert(table@ == theme_table(depth));
    proof {
        reveal_with_fuel(weight_prefix, 5);
    }
    table
}

impl CaveTheme {
    /// The theme of the level at `depth` for the rolls `roll1` and `roll2` (each below ten): the
    /// first roll's, or the second's when the first repeats the level above.
    pub fn pick_at(depth: usize, prev: Option<CaveTheme>, roll1: usize, roll2: usize) -> (t: Self)
        requires
            roll1 < 10,
            roll2 < 10,
        ensures
            theme_rule(depth, prev, roll1 as int, roll2 as int, t),
    {
        let table = theme_weights(depth);
        let first = weighted_at(table.as_slice(), roll1);
        let repeat = match prev {
            Some(p) => p == first,
            None => false,
        };
        let t = if repeat { weighted_at(table.as_slice(), roll2) } else { first };
        assert(theme_at(depth, roll1 as int, first));
        t
    }

    /// Rolls the theme of the level at `depth`, rolling once more when it repeats the level above.
    pub fn pick(rng: &mut SmallRng, depth: usize, prev: Option<CaveTheme>) -> (t: Self)
        ensures
            theme_rolled(depth, t),
            exists|roll1: int, roll2: int| 0 <= roll1 < 10 && 0 <= roll2 < 10 && #[trigger] theme_rule(depth, prev, roll1, roll2, t),
    {
        let table = theme_weights(depth);
        let roll1 = small_range_usize(rng, 0, 10);
        let first = weighted_at(table.as_slice(), roll1);
        let repeat = match prev {
            Some(p) => p == first,
            None => false,
        };
        let roll2 = if repeat { small_range_usize(rng, 0, 10) } else { 0 };
        let t = if repeat { weighted_at(table.as_slice(), roll2) } else { first };
        assert(theme_at(depth, roll1 as int, first));
        assert(theme_rule(depth, prev, roll1 as int, roll2 as int, t));
        t
    }

    /// Impassable liquid for pool cores: deep water when flooded, lava when molten, else none.
    pub fn deep_pool(self) -> (t: Option<Tile>)
        ensures
            t == match self {
                CaveTheme::Flooded => Some(Tile::DeepWater),
                CaveTheme::Molten => Some(Tile::Lava),
                _ => None,
            },
    {
        match self {
            CaveTheme::Flooded => Some(Tile::DeepWater),
            CaveTheme::Molten => Some(Tile::Lava),
            _ => None,
        }
    }
}

/// Squared distance between two points.
pub open spec fn d2(a: (int, int), b: (int, int)) -> int {
    (a.0 - b.0) * (a.0 - b.0) + (a.1 - b.1) * (a.1 - b.1)
}

/// Position of an offset in the 7 by 7 box scan, row by row.
pub open spec fn box_order(dx: int, dy: int) -> int {
    (dy + 3) * 7 + (dx + 3)
}

/// `(nx, ny)` is a walkable cell of the square level, reached in `dist`.
pub open spec fn snap_ok_cell(level: Level, dist: Seq<i32>, size: int, nx: int, ny: int) -> bool {
    &&& in_square(size, nx, ny)
    &&& level.spec_walkable(nx, ny)
    &&& dist[cell_index(size, nx, ny)] >= 0
}

/// `r` is the nearest walkable, reached cell to `(x, y)` within three tiles each way (by squared
/// distance, the first such in row order on ties), or `None` when there is none.
pub open spec fn snapped(level: Level, dist: Seq<i32>, x: int, y: int, r: Option<(i32, i32)>) -> bool {
    match r {
        Some(p) => {
            &&& -3 <= p.0 - x <= 3 && -3 <= p.1 - y <= 3
            &&& snap_ok_cell(level, dist, level.width as int, p.0 as int, p.1 as int)
            &&& forall|dx: int, dy: int| -3 <= dx <= 3 && -3 <= dy <= 3
                && #[trigger] snap_ok_cell(level, dist, level.width as int, x + dx, y + dy)
                ==> d2((p.0 as int, p.1 as int), (x, y)) <= d2((x + dx, y + dy), (x, y))
                    && (d2((p.0 as int, p.1 as int), (x, y)) == d2((x + dx, y + dy), (x, y))
                        ==> box_order(p.0 - x, p.1 - y) <= box_order(dx, dy))
        },
        None => forall|dx: int, dy: int| -3 <= dx <= 3 && -3 <= dy <= 3
            ==> !#[trigger] snap_ok_cell(level, dist, level.width as int, x + dx, y + dy),
    }
}

/// The nearest walkable, reached cell to `(x, y)` within three tiles each way (by squared
/// distance, the first such in row order on ties).
pub fn snap_reachable(level: &Level, dist: &[i32], x: i32, y: i32) -> (r: Option<(i32, i32)>)
    requires
        level.wf(),
        level.width <= 46340,
        dist@.len() == level.width * level.width,
        i32::MIN + 3 <= x <= i32::MAX - 3,
        i32::MIN + 3 <= y <= i32::MAX - 3,
    ensures
        snapped(*level, dist@, x as int, y as int, r),
{
    let size = level.width as i32;
    proof {
        assert(side_ok(size as int)) by (nonlinear_arith)
            requires
                0 <= size <= 46340,
        ;
    }
    let mut best: Option<(i32, i32)> = None;
    let mut best_d: i32 = 0;
    let mut dy: i32 = -3;
    while dy <= 3
        invariant
            level.wf(),
            size == level.width,
            side_ok(size as int),
            dist@.len() == size * size,
            i32::MIN + 3 <= x <= i32::MAX - 3,
            i32::MIN + 3 <= y <= i32::MAX - 3,
            -3 <= dy <= 4,
            match best {
                Some(p) => {
                    &&& -3 <= p.0 - x <= 3 && -3 <= p.1 - y < dy
                    &&& snap_ok_cell(*level, dist@, size as int, p.0 as int, p.1 as int)
                    &&& best_d == d2((p.0 as int, p.1 as int), (x as int, y as int))
                    &&& forall|ex: int, ey: int| -3 <= ex <= 3 && -3 <= ey < dy
                        && #[trigger] snap_ok_cell(*level, dist@, size as int, x + ex, y + ey)
                        ==> best_d <= d2((x + ex, y + ey), (x as int, y as int))
                            && (best_d == d2((x + ex, y + ey), (x as int, y as int)) ==> box_order(p.0 - x, p.1 - y) <= box_order(ex, ey))
                },
                None => forall|ex: int, ey: int| -3 <= ex <= 3 && -3 <= ey < dy
                    ==> !#[trigger] snap_ok_cell(*level, dist@, size as int, x + ex, y + ey),
            },
        decreases 4 - dy,
    {
        let mut dx: i32 = -3;
        while dx <= 3
            invariant
                level.wf(),
                size == level.width,
                side_ok(size as int),
                dist@.len() == size * size,
                i32::MIN + 3 <= x <= i32::MAX - 3,
                i32::MIN + 3 <= y <= i32::MAX - 3,
                -3 <= dy <= 3,
                -3 <= dx <= 4,
                match best {
                    Some(p) => {
                        &&& -3 <= p.0 - x <= 3 && -3 <= p.1 - y <= dy
                        &&& (p.1 - y == dy ==> p.0 - x < dx)
                        &&& snap_ok_cell(*level, dist@, size as int, p.0 as int, p.1 as int)
                        &&& best_d == d2((p.0 as int, p.1 as int), (x as int, y as int))
                        &&& forall|ex: int, ey: int| -3 <= ex <= 3 && -3 <= ey <= dy && (ey == dy ==> ex < dx)
                            && #[trigger] snap_ok_cell(*level, dist@, size as int, x + ex, y + ey)
                            ==> best_d <= d2((x + ex, y + ey), (x as int, y as int))
                                && (best_d == d2((x + ex, y + ey), (x as int, y as int)) ==> box_order(p.0 - x, p.1 - y) <= box_order(ex, ey))
                    },
                    None => forall|ex: int, ey: int| -3 <= ex <= 3 && -3 <= ey <= dy && (ey == dy ==> ex < dx)
                        ==> !#[trigger] snap_ok_cell(*level, dist@, size as int, x + ex, y + ey),
                },
            decreases 4 - dx,
        {
            let nx = x + dx;
            let ny = y + dy;
            let ok = if nx >= 0 && ny >= 0 && nx < size && ny < size && level.walkable(nx, ny) {
                proof { lemma_cell_index(size as int, nx as int, ny as int); }
                dist[(ny * size + nx) as usize] >= 0
            } else {
                false
            };
            assert(ok == snap_ok_cell(*level, dist@, size as int, nx as int, ny as int));
            if ok {
                assert(0 <= dx * dx <= 9 && 0 <= dy * dy <= 9) by (nonlinear_arith)
                    requires
                        -3 <= dx <= 3,
                        -3 <= dy <= 3,
                ;
                let dd = dx * dx + dy * dy;
                assert(dd == d2((nx as int, ny as int), (x as int, y as int)));
                let better = match best {
                    Some(_) => dd < best_d,
                    None => true,
                };
                if better {
                    best = Some((nx, ny));
                    best_d = dd;
                }
            }
            dx = dx + 1;
        }
        dy = dy + 1;
    }
    best
}

/// Smallest squared distance from `p` to the points of `chosen` (which must not be empty).
pub open spec fn min_d2(p: (i32, i32), chosen: Seq<(i32, i32)>) -> int
    decreases chosen.len(),
{
    if chosen.len() <= 1 {
        d2((p.0 as int, p.1 as int), (chosen[0].0 as int, chosen[0].1 as int))
    } else {
        let a = min_d2(p, chosen.drop_last());
        let b = d2((p.0 as int, p.1 as int), (chosen.last().0 as int, chosen.last().1 as int));
        if a <= b { a } else { b }
    }
}

/// A grid coordinate small enough that squared distances between such points fit an `i32`.
pub open spec fn coord_small(p: (i32, i32)) -> bool {
    0 <= p.0 <= 32767 && 0 <= p.1 <= 32767
}

/// The greedy spread picks: from the second on, each pick is as far as any candidate still
/// left (by distance to the nearest earlier pick).
pub open spec fn spread_ok(candidates: Seq<(i32, i32)>, chosen: Seq<(i32, i32)>) -> bool {
    &&& chosen.to_multiset().subset_of(candidates.to_multiset())
    &&& forall|i: int, c: (i32, i32)| 1 <= i < chosen.len()
        && candidates.to_multiset().sub(chosen.take(i).to_multiset()).count(c) > 0
        ==> #[trigger] min_d2(c, chosen.take(i)) <= min_d2(chosen[i], chosen.take(i))
}

/// Distance from `p` to the nearest point of `chosen`.
fn nearest_d2(p: (i32, i32), chosen: &Vec<(i32, i32)>) -> (d: i32)
    requires
        chosen@.len() > 0,
        coord_small(p),
        forall|k: int| 0 <= k < chosen@.len() ==> coord_small(#[trigger] chosen@[k]),
    ensures
        d == min_d2(p, chosen@),
        0 <= d <= 2_147_352_578,
{
    let mut best: i32 = 0;
    let mut i: usize = 0;
    while i < chosen.len()
        invariant
            chosen@.len() > 0,
            coord_small(p),
            forall|k: int| 0 <= k < chosen@.len() ==> coord_small(#[trigger] chosen@[k]),
            i <= chosen@.len(),
            i > 0 ==> best == min_d2(p, chosen@.take(i as int)),
            0 <= best <= 2_147_352_578,
        decreases chosen@.len() - i,
    {
        let (cx, cy) = chosen[i];
        assert(coord_small(chosen@[i as int]));
        let ex = cx - p.0;
        let ey = cy - p.1;
        assert(0 <= ex * ex <= 1_073_676_289 && 0 <= ey * ey <= 1_073_676_289) by (nonlinear_arith)
            requires
                -32767 <= ex <= 32767,
                -32767 <= ey <= 32767,
        ;
        let dd = ex * ex + ey * ey;
        assert(dd == d2((p.0 as int, p.1 as int), (cx as int, cy as int))) by (nonlinear_arith)
            requires
                ex == cx - p.0,
                ey == cy - p.1,
                dd == ex * ex + ey * ey,
        ;
        assert(chosen@.take(i + 1).drop_last() == chosen@.take(i as int));
        if i == 0 || dd < best {
            best = dd;
        }
        i = i + 1;
    }
    assert(chosen@.take(chosen@.len() as int) == chosen@);
    best
}

/// Greedy max-min selection: up to `count` points spread as far from each other as possible,
/// the first one at random.
pub fn pick_spread(rng: &mut SmallRng, candidates: Vec<(i32, i32)>, count: usize) -> (chosen: Vec<(i32, i32)>)
    requires
        forall|k: int| 0 <= k < candidates@.len() ==> coord_small(#[trigger] candidates@[k]),
    ensures
        chosen@.len() == if count <= candidates@.len() { count as int } else { candidates@.len() as int },
        spread_ok(candidates@, chosen@),
{
    broadcast use vstd::seq_lib::group_to_multiset_ensures;
    let ghost init = candidates@;
    let mut candidates = candidates;
    let mut chosen: Vec<(i32, i32)> = Vec::new();
    proof {
        assert(chosen@.to_multiset() =~= vstd::multiset::Multiset::empty());
        assert(candidates@.to_multiset().add(chosen@.to_multiset()) =~= init.to_multiset());
    }
    while chosen.len() < count && candidates.len() > 0
        invariant
            forall|k: int| 0 <= k < candidates@.len() ==> coord_small(#[trigger] candidates@[k]),
            forall|k: int| 0 <= k < chosen@.len() ==> coord_small(#[trigger] chosen@[k]),
            candidates@.to_multiset().add(chosen@.to_multiset()) == init.to_multiset(),
            chosen@.len() + candidates@.len() == init.len(),
            chosen@.len() <= count,
            forall|i: int, c: (i32, i32)| 1 <= i < chosen@.len()
                && init.to_multiset().sub(chosen@.take(i).to_multiset()).count(c) > 0
                ==> #[trigger] min_d2(c, chosen@.take(i)) <= min_d2(chosen@[i], chosen@.take(i)),
        decreases candidates@.len(),
    {
        let pick: usize = if chosen.len() == 0 {
            small_range_usize(rng, 0, candidates.len())
        } else {
            let mut best: usize = 0;
            let mut best_key: i32 = 0;
            let mut j: usize = 0;
            while j < candidates.len()
                invariant
                    chosen@.len() > 0,
                    forall|k: int| 0 <= k < candidates@.len() ==> coord_small(#[trigger] candidates@[k]),
                    forall|k: int| 0 <= k < chosen@.len() ==> coord_small(#[trigger] chosen@[k]),
                    j <= candidates@.len(),
                    j > 0 ==> best < j && best_key == min_d2(candidates@[best as int], chosen@),
                    forall|k: int| 0 <= k < j ==> min_d2(#[trigger] candidates@[k], chosen@) <= best_key,
                decreases candidates@.len() - j,
            {
                let key = nearest_d2(candidates[j], &chosen);
                if j == 0 || key >= best_key {
                    best = j;
                    best_key = key;
                }
                j = j + 1;
            }
            best
        };
        let ghost before_c = candidates@;
        let ghost before_ch = chosen@;
        let item = candidates.swap_remove(pick);
        chosen.push(item);
        proof {
            let n = before_c.len();
            let upd = before_c.update(pick as int, before_c.last());
            assert(candidates@ == upd.drop_last());
            assert(upd.drop_last() == upd.remove(n - 1));
            vstd::seq_lib::to_multiset_remove(upd, n - 1);
            vstd::seq_lib::to_multiset_update(before_c, pick as int, before_c.last());
            assert(upd[n - 1] == before_c.last());
            vstd::seq_lib::to_multiset_build(before_ch, item);
            assert(before_c.to_multiset().count(item) > 0) by {
                vstd::seq_lib::to_multiset_contains(before_c, item);
                assert(before_c[pick as int] == item);
            }
            assert(candidates@.to_multiset().add(chosen@.to_multiset()) =~= init.to_multiset());
            assert(chosen@.take(before_ch.len() as int) == before_ch);
            assert forall|i: int, c: (i32, i32)| 1 <= i < chosen@.len()
                && init.to_multiset().sub(chosen@.take(i).to_multiset()).count(c) > 0
                implies #[trigger] min_d2(c, chosen@.take(i)) <= min_d2(chosen@[i], chosen@.take(i)) by {
                if i < before_ch.len() {
                    assert(chosen@.take(i) == before_ch.take(i));
                    assert(chosen@[i] == before_ch[i]);
                } else {
                    assert(chosen@.take(i) == before_ch);
                    assert(init.to_multiset().sub(before_ch.to_multiset()) =~= before_c.to_multiset());
                    vstd::seq_lib::to_multiset_contains(before_c, c);
                    let k = choose|k: int| 0 <= k < before_c.len() && before_c[k] == c;
                    assert(min_d2(before_c[k], before_ch) <= min_d2(before_c[pick as int], before_ch));
                }
            }
        }
    }
    proof {
        assert(chosen@.to_multiset().subset_of(init.to_multiset()));
    }
    chosen
}

/// `after` holds every floor tile of `before`, and any new floor lies inside the border margin.
pub open spec fn grown_from(before: Carved, after: Carved) -> bool {
    &&& after.wf()
    &&& after.size == before.size
    &&& forall|x: int, y: int| #[trigger] before.spec_get(x, y) ==> after.spec_get(x, y)
    &&& forall|x: int, y: int| #[trigger] after.spec_get(x, y) && !before.spec_get(x, y)
        ==> MARGIN <= x < before.size - MARGIN && MARGIN <= y < before.size - MARGIN
}

/// Floor of `b` includes floor of `a`: neighbour counts can only grow.
proof fn lemma_count_floor8_mono(a: Carved, b: Carved, x: int, y: int)
    requires
        forall|u: int, v: int| #[trigger] a.spec_get(u, v) ==> b.spec_get(u, v),
    ensures
        count_floor8(a, x, y) <= count_floor8(b, x, y),
{
    assert forall|dy: int, dx: int| -1 <= dy && -1 <= dx implies #[trigger] count_floor8_cols(a, x, y, dy, dx) <= count_floor8_cols(b, x, y, dy, dx) by {
        lemma_cols_mono(a, b, x, y, dy, dx);
    }
    lemma_rows_mono(a, b, x, y, 2);
}

proof fn lemma_cols_mono(a: Carved, b: Carved, x: int, y: int, dy: int, dx: int)
    requires
        forall|u: int, v: int| #[trigger] a.spec_get(u, v) ==> b.spec_get(u, v),
    ensures
        count_floor8_cols(a, x, y, dy, dx) <= count_floor8_cols(b, x, y, dy, dx),
    decreases dx + 1,
{
    if dx > -1 {
        lemma_cols_mono(a, b, x, y, dy, dx - 1);
        if a.spec_get(x + dx - 1, y + dy) {
            assert(b.spec_get(x + dx - 1, y + dy));
        }
    }
}

proof fn lemma_rows_mono(a: Carved, b: Carved, x: int, y: int, dy: int)
    requires
        forall|u: int, v: int| #[trigger] a.spec_get(u, v) ==> b.spec_get(u, v),
    ensures
        count_floor8_rows(a, x, y, dy) <= count_floor8_rows(b, x, y, dy),
    decreases dy + 1,
{
    if dy > -1 {
        lemma_rows_mono(a, b, x, y, dy - 1);
        lemma_cols_mono(a, b, x, y, dy - 1, 2);
    }
}

/// Every floor tile `after` adds to `before` has at least four floor tiles among its eight
/// neighbours.
pub open spec fn grown_on_floor(before: Carved, after: Carved) -> bool {
    forall|x: int, y: int| #[trigger] after.spec_get(x, y) && !before.spec_get(x, y) ==> count_floor8(after, x, y) >= 4
}

/// Floor tiles among the eight neighbours of `(x, y)` of the floor `g`, in the row `y + dy`
/// among columns `x - 1` up to `x + dx - 1`.
pub open spec fn count8p_cols(g: spec_fn(int, int) -> bool, x: int, y: int, dy: int, dx: int) -> nat
    decreases dx + 1,
{
    if dx <= -1 {
        0
    } else {
        count8p_cols(g, x, y, dy, dx - 1) + if !(dx - 1 == 0 && dy == 0) && g(x + dx - 1, y + dy) { 1nat } else { 0nat }
    }
}

pub open spec fn count8p_rows(g: spec_fn(int, int) -> bool, x: int, y: int, dy: int) -> nat
    decreases dy + 1,
{
    if dy <= -1 {
        0
    } else {
        count8p_rows(g, x, y, dy - 1) + count8p_cols(g, x, y, dy - 1, 2)
    }
}

/// Floor tiles of the floor `g` among the eight neighbours of `(x, y)`.
pub open spec fn count8p(g: spec_fn(int, int) -> bool, x: int, y: int) -> nat {
    count8p_rows(g, x, y, 2)
}

proof fn lemma_count8_cols_eq(c: Carved, g: spec_fn(int, int) -> bool, x: int, y: int, dy: int, dx: int)
    requires
        forall|u: int, v: int| #[trigger] c.spec_get(u, v) == g(u, v),
    ensures
        count_floor8_cols(c, x, y, dy, dx) == count8p_cols(g, x, y, dy, dx),
    decreases dx + 1,
{
    if dx > -1 {
        lemma_count8_cols_eq(c, g, x, y, dy, dx - 1);
        assert(c.spec_get(x + dx - 1, y + dy) == g(x + dx - 1, y + dy));
    }
}

proof fn lemma_count8_rows_eq(c: Carved, g: spec_fn(int, int) -> bool, x: int, y: int, dy: int)
    requires
        forall|u: int, v: int| #[trigger] c.spec_get(u, v) == g(u, v),
    ensures
        count_floor8_rows(c, x, y, dy) == count8p_rows(g, x, y, dy),
    decreases dy + 1,
{
    if dy > -1 {
        lemma_count8_rows_eq(c, g, x, y, dy - 1);
        lemma_count8_cols_eq(c, g, x, y, dy - 1, 2);
    }
}

/// A mask's neighbour count is that of the floor it holds.
proof fn lemma_count8_eq(c: Carved, g: spec_fn(int, int) -> bool, x: int, y: int)
    requires
        forall|u: int, v: int| #[trigger] c.spec_get(u, v) == g(u, v),
    ensures
        count_floor8(c, x, y) == count8p(g, x, y),
{
    lemma_count8_rows_eq(c, g, x, y, 2);
}

/// Roughening one tile: a wall with at least four floor tiles among its eight neighbours takes
/// the next draw (`s.1` of them used so far; missing ones are false) and becomes floor when it is
/// true.
pub open spec fn rough_step(s: (spec_fn(int, int) -> bool, int), draws: Seq<bool>, x: int, y: int) -> (spec_fn(int, int) -> bool, int) {
    let g = s.0;
    let u = s.1;
    if !g(x, y) && count8p(g, x, y) >= 4 {
        if 0 <= u < draws.len() && draws[u] {
            (|a: int, b: int| g(a, b) || (a == x && b == y), u + 1)
        } else {
            (g, u + 1)
        }
    } else {
        s
    }
}

/// Roughening row `y` from column `MARGIN` up to, not including, `x`.
pub open spec fn rough_row(s: (spec_fn(int, int) -> bool, int), draws: Seq<bool>, y: int, x: int) -> (spec_fn(int, int) -> bool, int)
    decreases x - MARGIN,
{
    if x <= MARGIN { s } else { rough_step(rough_row(s, draws, y, x - 1), draws, x - 1, y) }
}

/// Roughening the rows from `MARGIN` up to, not including, `y`, each across to `size - MARGIN`.
pub open spec fn rough_rows(s: (spec_fn(int, int) -> bool, int), draws: Seq<bool>, size: int, y: int) -> (spec_fn(int, int) -> bool, int)
    decreases y - MARGIN,
{
    if y <= MARGIN { s } else { rough_row(rough_rows(s, draws, size, y - 1), draws, y - 1, size - MARGIN) }
}

/// The floor of `c` and no draws used.
pub open spec fn rough_start(c: Carved) -> (spec_fn(int, int) -> bool, int) {
    (|a: int, b: int| c.spec_get(a, b), 0int)
}

/// Two roughening passes over `c` with `draws`: the floor after them and the draws used.
pub open spec fn rough_passes(c: Carved, draws: Seq<bool>) -> (spec_fn(int, int) -> bool, int) {
    let e = c.size - MARGIN;
    rough_rows(rough_rows(rough_start(c), draws, c.size as int, e), draws, c.size as int, e)
}

proof fn lemma_rough_row_mono(s: (spec_fn(int, int) -> bool, int), draws: Seq<bool>, y: int, x: int)
    ensures
        rough_row(s, draws, y, x).1 >= s.1,
    decreases x - MARGIN,
{
    if x > MARGIN {
        lemma_rough_row_mono(s, draws, y, x - 1);
    }
}

proof fn lemma_rough_rows_mono(s: (spec_fn(int, int) -> bool, int), draws: Seq<bool>, size: int, y: int)
    ensures
        rough_rows(s, draws, size, y).1 >= s.1,
    decreases y - MARGIN,
{
    if y > MARGIN {
        lemma_rough_rows_mono(s, draws, size, y - 1);
        lemma_rough_row_mono(rough_rows(s, draws, size, y - 1), draws, y - 1, size - MARGIN);
    }
}

/// Draws past those a row uses change nothing.
proof fn lemma_rough_row_frame(s: (spec_fn(int, int) -> bool, int), d1: Seq<bool>, d2: Seq<bool>, y: int, x: int)
    requires
        s.1 >= 0,
        d1.len() <= d2.len(),
        forall|i: int| 0 <= i < d1.len() ==> d1[i] == d2[i],
        rough_row(s, d1, y, x).1 <= d1.len(),
    ensures
        rough_row(s, d2, y, x) == rough_row(s, d1, y, x),
    decreases x - MARGIN,
{
    if x > MARGIN {
        let p = rough_row(s, d1, y, x - 1);
        lemma_rough_row_mono(s, d1, y, x - 1);
        assert(p.1 <= d1.len());
        lemma_rough_row_frame(s, d1, d2, y, x - 1);
    }
}

proof fn lemma_rough_rows_frame(s: (spec_fn(int, int) -> bool, int), d1: Seq<bool>, d2: Seq<bool>, size: int, y: int)
    requires
        s.1 >= 0,
        d1.len() <= d2.len(),
        forall|i: int| 0 <= i < d1.len() ==> d1[i] == d2[i],
        rough_rows(s, d1, size, y).1 <= d1.len(),
    ensures
        rough_rows(s, d2, size, y) == rough_rows(s, d1, size, y),
    decreases y - MARGIN,
{
    if y > MARGIN {
        let p = rough_rows(s, d1, size, y - 1);
        lemma_rough_row_mono(p, d1, y - 1, size - MARGIN);
        lemma_rough_rows_mono(s, d1, size, y - 1);
        lemma_rough_rows_frame(s, d1, d2, size, y - 1);
        lemma_rough_row_frame(p, d1, d2, y - 1, size - MARGIN);
    }
}

/// Floor-only growth, twice over, with the draws given: scanning rows from the top, each from
/// the left, a wall with at least four floor tiles among its eight neighbours takes the next
/// draw and becomes floor when it is true.
pub fn roughen_with(carved: &mut Carved, draws: &Vec<bool>)
    requires
        old(carved).wf(),
        old(carved).size < 0x7fff_0000,
    ensures
        final(carved).wf(),
        final(carved).size == old(carved).size,
        forall|a: int, b: int| #[trigger] final(carved).spec_get(a, b) == rough_passes(*old(carved), draws@).0(a, b),
{
    let ghost c0 = *carved;
    let ghost size = carved.size as int;
    let ghost e = size - MARGIN;
    let ghost mut sp = rough_start(c0);
    let mut u: usize = 0;
    let mut pass: usize = 0;
    while pass < 2
        invariant
            carved.wf(),
            carved.size == size,
            size == c0.size,
            e == size - MARGIN,
            size < 0x7fff_0000,
            pass <= 2,
            sp == (if pass == 0 { rough_start(c0) } else if pass == 1 { rough_rows(rough_start(c0), draws@, size, e) } else { rough_passes(c0, draws@) }),
            forall|a: int, b: int| #[trigger] carved.spec_get(a, b) == sp.0(a, b),
            sp.1 >= 0,
            u == if sp.1 < draws@.len() { sp.1 } else { draws@.len() as int },
        decreases 2 - pass,
    {
        let ghost pass_start = sp;
        let mut y: i32 = MARGIN;
        while y < carved.size - MARGIN
            invariant
                carved.wf(),
                carved.size == size,
                size < 0x7fff_0000,
                e == size - MARGIN,
                MARGIN <= y,
                y <= e || y == MARGIN,
                pass_start.1 >= 0,
                sp == rough_rows(pass_start, draws@, size, y as int),
                forall|a: int, b: int| #[trigger] carved.spec_get(a, b) == sp.0(a, b),
                sp.1 >= 0,
                u == if sp.1 < draws@.len() { sp.1 } else { draws@.len() as int },
            decreases size - y,
        {
            let ghost row_start = sp;
            let mut x: i32 = MARGIN;
            while x < carved.size - MARGIN
                invariant
                    carved.wf(),
                    carved.size == size,
                    size < 0x7fff_0000,
                    e == size - MARGIN,
                    MARGIN <= y < e,
                    MARGIN <= x <= e,
                    row_start == rough_rows(pass_start, draws@, size, y as int),
                    sp == rough_row(row_start, draws@, y as int, x as int),
                    forall|a: int, b: int| #[trigger] carved.spec_get(a, b) == sp.0(a, b),
                    sp.1 >= 0,
                    u == if sp.1 < draws@.len() { sp.1 } else { draws@.len() as int },
                decreases size - x,
            {
                let ghost g = sp.0;
                proof {
                    lemma_count8_eq(*carved, g, x as int, y as int);
                }
                if !carved.get(x, y) && carved.floor_neighbors8(x, y) >= 4 {
                    let d = u < draws.len() && draws[u];
                    if d {
                        carved.set(x, y);
                    }
                    if u < draws.len() {
                        u = u + 1;
                    }
                }
                proof {
                    sp = rough_step(sp, draws@, x as int, y as int);
                }
                x = x + 1;
            }
            y = y + 1;
        }
        proof {
            if pass == 0 {
                assert(sp == rough_rows(rough_start(c0), draws@, size, e));
            }
        }
        pass = pass + 1;
    }
}

/// Floor-only growth, twice over: a wall with at least four floor tiles among its eight
/// neighbours becomes floor with a chance of nine in twenty. It roughens every edge and never
/// removes floor, so no passage is ever cut.
pub fn roughen(carved: &mut Carved, rng: &mut SmallRng)
    requires
        old(carved).wf(),
        old(carved).size < 0x7fff_0000,
    ensures
        grown_from(*old(carved), *final(carved)),
        grown_on_floor(*old(carved), *final(carved)),
        exists|draws: Seq<bool>| #[trigger] rough_passes(*old(carved), draws).1 == draws.len()
            && forall|a: int, b: int| #[trigger] final(carved).spec_get(a, b) == rough_passes(*old(carved), draws).0(a, b),
{
    let ghost start = *carved;
    let ghost size = carved.size as int;
    let ghost e = size - MARGIN;
    let ghost mut drawn: Seq<bool> = Seq::empty();
    let ghost mut sp = rough_start(start);
    let ghost mut d1: Seq<bool> = Seq::empty();
    let mut pass: usize = 0;
    while pass < 2
        invariant
            pass <= 2,
            grown_from(start, *carved),
            grown_on_floor(start, *carved),
            carved.size < 0x7fff_0000,
            carved.size == size,
            size == start.size,
            e == size - MARGIN,
            pass >= 1 ==> d1.len() <= drawn.len() && (forall|i: int| 0 <= i < d1.len() ==> d1[i] == drawn[i])
                && rough_rows(rough_start(start), d1, size, e).1 == d1.len(),
            sp == (if pass == 0 { rough_start(start) } else if pass == 1 { rough_rows(rough_start(start), d1, size, e) }
                else { rough_rows(rough_rows(rough_start(start), d1, size, e), drawn, size, e) }),
            forall|a: int, b: int| #[trigger] carved.spec_get(a, b) == sp.0(a, b),
            sp.1 == drawn.len(),
        decreases 2 - pass,
    {
        let ghost pass_start = sp;
        let ghost pass_drawn = drawn;
        let mut y: i32 = MARGIN;
        while y < carved.size - MARGIN
            invariant
                grown_from(start, *carved),
                grown_on_floor(start, *carved),
                carved.size < 0x7fff_0000,
                carved.size == size,
                e == size - MARGIN,
                MARGIN <= y,
                y <= e || y == MARGIN,
                pass_start.1 >= 0,
                pass_start.1 == pass_drawn.len(),
                pass_drawn.len() <= drawn.len(),
                forall|i: int| 0 <= i < pass_drawn.len() ==> pass_drawn[i] == drawn[i],
                sp == rough_rows(pass_start, drawn, size, y as int),
                forall|a: int, b: int| #[trigger] carved.spec_get(a, b) == sp.0(a, b),
                sp.1 == drawn.len(),
            decreases carved.size - y,
        {
            let ghost row_start = sp;
            let mut x: i32 = MARGIN;
            while x < carved.size - MARGIN
                invariant
                    grown_from(start, *carved),
                    grown_on_floor(start, *carved),
                    carved.size < 0x7fff_0000,
                    carved.size == size,
                    e == size - MARGIN,
                    MARGIN <= y < e,
                    MARGIN <= x <= e,
                    pass_start.1 >= 0,
                    pass_drawn.len() <= drawn.len(),
                    forall|i: int| 0 <= i < pass_drawn.len() ==> pass_drawn[i] == drawn[i],
                    row_start == rough_rows(pass_start, drawn, size, y as int),
                    row_start.1 >= 0,
                    sp == rough_row(row_start, drawn, y as int, x as int),
                    forall|a: int, b: int| #[trigger] carved.spec_get(a, b) == sp.0(a, b),
                    sp.1 == drawn.len(),
                decreases carved.size - x,
            {
                let ghost g = sp.0;
                proof {
                    lemma_count8_eq(*carved, g, x as int, y as int);
                }
                if !carved.get(x, y) && carved.floor_neighbors8(x, y) >= 4 {
                    let d = small_ratio(rng, 9, 20);
                    let ghost d2 = drawn.push(d);
                    proof {
                        lemma_rough_rows_mono(pass_start, drawn, size, y as int);
                        lemma_rough_row_mono(row_start, drawn, y as int, x as int);
                        lemma_rough_rows_frame(pass_start, drawn, d2, size, y as int);
                        lemma_rough_row_frame(row_start, drawn, d2, y as int, x as int);
                    }
                    if d {
                        let ghost before = *carved;
                        carved.set(x, y);
                        proof {
                            assert forall|u: int, v: int| #[trigger] carved.spec_get(u, v) && !start.spec_get(u, v)
                                implies count_floor8(*carved, u, v) >= 4 by {
                                lemma_count_floor8_mono(before, *carved, u, v);
                            }
                        }
                    }
                    proof {
                        drawn = d2;
                    }
                }
                proof {
                    sp = rough_step(sp, drawn, x as int, y as int);
                }
                x = x + 1;
            }
            y = y + 1;
        }
        proof {
            if pass == 0 {
                d1 = drawn;
            }
        }
        pass = pass + 1;
    }
    proof {
        let s0 = rough_start(start);
        lemma_rough_rows_mono(rough_rows(s0, d1, size, e), drawn, size, e);
        lemma_rough_rows_frame(s0, d1, drawn, size, e);
        assert(rough_passes(start, drawn) == sp);
    }
}

/// The caverns in the order the spanning tree takes them in: the first, then the new end of
/// each tree edge.
pub open spec fn tree_order(edges: Seq<(usize, usize)>, k: int) -> Seq<usize>
    decreases k,
{
    if k <= 0 { seq![0usize] } else { tree_order(edges, k - 1).push(edges[k - 1].1) }
}

/// The first `n - 1` edges are Prim's minimum spanning tree over the `n` caverns: each joins a
/// cavern already in the tree to a new one, by the shortest such link.
pub open spec fn spanning_tree_ok(caverns: Seq<(i32, i32)>, edges: Seq<(usize, usize)>) -> bool {
    let n = caverns.len();
    &&& n > 0 ==> edges.len() >= n - 1
    &&& forall|v: int| 0 <= v < n ==> #[trigger] tree_order(edges, n - 1).contains(v as usize)
    &&& forall|k: int| 0 <= k < n - 1 ==> {
        &&& tree_order(edges, k).contains((#[trigger] edges[k]).0)
        &&& !tree_order(edges, k).contains(edges[k].1)
        &&& edges[k].1 < n
        &&& forall|a: usize, b: usize| tree_order(edges, k).contains(a) && b < n && !tree_order(edges, k).contains(b)
            ==> d2(pt(caverns[edges[k].0 as int]), pt(caverns[edges[k].1 as int])) <= #[trigger] d2(pt(caverns[a as int]), pt(caverns[b as int]))
    }
    &&& forall|k: int| 0 <= k && n - 1 <= k < edges.len() ==> (#[trigger] edges[k]).0 < n && edges[k].1 < n && edges[k].0 != edges[k].1
}

pub open spec fn pt(p: (i32, i32)) -> (int, int) {
    (p.0 as int, p.1 as int)
}

fn vec_contains_usize(v: &Vec<usize>, x: usize) -> (b: bool)
    ensures
        b == v@.contains(x),
{
    let mut i: usize = 0;
    while i < v.len()
        invariant
            i <= v@.len(),
            forall|k: int| 0 <= k < i ==> v@[k] != x,
        decreases v@.len() - i,
    {
        if v[i] == x {
            return true;
        }
        i = i + 1;
    }
    false
}

fn edge_listed(edges: &Vec<(usize, usize)>, a: usize, b: usize) -> (r: bool)
    ensures
        r == (edges@.contains((a, b)) || edges@.contains((b, a))),
{
    let mut i: usize = 0;
    while i < edges.len()
        invariant
            i <= edges@.len(),
            forall|k: int| 0 <= k < i ==> edges@[k] != (a, b) && edges@[k] != (b, a),
        decreases edges@.len() - i,
    {
        let e = edges[i];
        if (e.0 == a && e.1 == b) || (e.0 == b && e.1 == a) {
            return true;
        }
        i = i + 1;
    }
    false
}

fn cavern_d2(caverns: &[(i32, i32)], a: usize, b: usize) -> (d: i32)
    requires
        a < caverns@.len(),
        b < caverns@.len(),
        forall|k: int| 0 <= k < caverns@.len() ==> coord_small(#[trigger] caverns@[k]),
    ensures
        d == d2(pt(caverns@[a as int]), pt(caverns@[b as int])),
{
    let (ax, ay) = caverns[a];
    let (bx, by) = caverns[b];
    assert(coord_small(caverns@[a as int]) && coord_small(caverns@[b as int]));
    let ex = ax - bx;
    let ey = ay - by;
    assert(0 <= ex * ex <= 1_073_676_289 && 0 <= ey * ey <= 1_073_676_289) by (nonlinear_arith)
        requires
            -32767 <= ex <= 32767,
            -32767 <= ey <= 32767,
    ;
    ex * ex + ey * ey
}

/// The tunnels to dig: a minimum spanning tree over the caverns (so every cavern is connected),
/// then, for each cavern, a link to its nearest unlinked neighbour with a chance of three in ten
/// (so the caves have loops).
pub fn plan_edges(rng: &mut SmallRng, caverns: &[(i32, i32)]) -> (edges: Vec<(usize, usize)>)
    requires
        forall|k: int| 0 <= k < caverns@.len() ==> coord_small(#[trigger] caverns@[k]),
        caverns@.len() < 0x1000_0000,
    ensures
        spanning_tree_ok(caverns@, edges@),
{
    let n = caverns.len();
    let mut in_tree: Vec<usize> = Vec::new();
    in_tree.push(0);
    let mut edges: Vec<(usize, usize)> = Vec::new();
    proof {
        reveal_with_fuel(tree_order, 1);
        assert(in_tree@ == tree_order(edges@, 0));
    }
    while in_tree.len() < n
        invariant
            n == caverns@.len(),
            n < 0x1000_0000,
            forall|k: int| 0 <= k < caverns@.len() ==> coord_small(#[trigger] caverns@[k]),
            in_tree@ == tree_order(edges@, edges@.len() as int),
            in_tree@.len() == edges@.len() + 1,
            in_tree@.len() <= n || n == 0,
            forall|i: int, j: int| 0 <= i < j < in_tree@.len() ==> in_tree@[i] != in_tree@[j],
            forall|i: int| 0 <= i < in_tree@.len() ==> (n > 0 ==> #[trigger] in_tree@[i] < n),
            forall|k: int| 0 <= k < edges@.len() ==> {
                &&& tree_order(edges@, k).contains((#[trigger] edges@[k]).0)
                &&& !tree_order(edges@, k).contains(edges@[k].1)
                &&& edges@[k].1 < n
                &&& forall|a: usize, b: usize| tree_order(edges@, k).contains(a) && b < n && !tree_order(edges@, k).contains(b)
                    ==> d2(pt(caverns@[edges@[k].0 as int]), pt(caverns@[edges@[k].1 as int])) <= #[trigger] d2(pt(caverns@[a as int]), pt(caverns@[b as int]))
            },
        decreases n - in_tree@.len(),
    {
        let mut best: Option<(usize, usize)> = None;
        let mut best_d: i32 = 0;
        let mut ai: usize = 0;
        while ai < in_tree.len()
            invariant
                n == caverns@.len(),
                forall|k: int| 0 <= k < caverns@.len() ==> coord_small(#[trigger] caverns@[k]),
                forall|i: int| 0 <= i < in_tree@.len() ==> #[trigger] in_tree@[i] < n,
                in_tree@.len() < n,
                ai <= in_tree@.len(),
                match best {
                    Some((a, b)) => in_tree@.contains(a) && b < n && !in_tree@.contains(b)
                        && best_d == d2(pt(caverns@[a as int]), pt(caverns@[b as int]))
                        && forall|i: int, b2: usize| 0 <= i < ai && b2 < n && !in_tree@.contains(b2)
                            ==> best_d <= #[trigger] d2(pt(caverns@[in_tree@[i] as int]), pt(caverns@[b2 as int])),
                    None => ai > 0 ==> forall|b2: usize| b2 < n ==> #[trigger] in_tree@.contains(b2),
                },
            decreases in_tree@.len() - ai,
        {
            let a = in_tree[ai];
            let mut b: usize = 0;
            while b < n
                invariant
                    n == caverns@.len(),
                    forall|k: int| 0 <= k < caverns@.len() ==> coord_small(#[trigger] caverns@[k]),
                    forall|i: int| 0 <= i < in_tree@.len() ==> #[trigger] in_tree@[i] < n,
                    in_tree@.len() < n,
                    ai < in_tree@.len(),
                    a == in_tree@[ai as int],
                    b <= n,
                    match best {
                        Some((a1, b1)) => in_tree@.contains(a1) && b1 < n && !in_tree@.contains(b1)
                            && best_d == d2(pt(caverns@[a1 as int]), pt(caverns@[b1 as int]))
                            && (forall|i: int, b2: usize| 0 <= i < ai && b2 < n && !in_tree@.contains(b2)
                                ==> best_d <= #[trigger] d2(pt(caverns@[in_tree@[i] as int]), pt(caverns@[b2 as int])))
                            && (forall|b2: usize| b2 < b && !in_tree@.contains(b2)
                                ==> best_d <= #[trigger] d2(pt(caverns@[a as int]), pt(caverns@[b2 as int]))),
                        None => (ai > 0 ==> forall|b2: usize| b2 < n ==> #[trigger] in_tree@.contains(b2))
                            && (forall|b2: usize| b2 < b ==> #[trigger] in_tree@.contains(b2)),
                    },
                decreases n - b,
            {
                if !vec_contains_usize(&in_tree, b) {
                    let d = cavern_d2(caverns, a, b);
                    let better = match best {
                        Some(_) => d < best_d,
                        None => true,
                    };
                    if better {
                        best = Some((a, b));
                        best_d = d;
                    }
                }
                b = b + 1;
            }
            ai = ai + 1;
        }
        proof {
            lemma_pigeonhole(in_tree@, n);
        }
        let (a, b) = best.unwrap();
        let ghost old_edges = edges@;
        let ghost old_tree = in_tree@;
        edges.push((a, b));
        in_tree.push(b);
        proof {
            let k = old_edges.len() as int;
            assert(edges@.take(k) == old_edges);
            lemma_tree_order_prefix(edges@, old_edges, k);
            assert(in_tree@ == tree_order(edges@, edges@.len() as int));
            assert forall|j: int| 0 <= j < edges@.len() implies {
                &&& tree_order(edges@, j).contains((#[trigger] edges@[j]).0)
                &&& !tree_order(edges@, j).contains(edges@[j].1)
                &&& edges@[j].1 < n
                &&& forall|a: usize, b: usize| tree_order(edges@, j).contains(a) && b < n && !tree_order(edges@, j).contains(b)
                    ==> d2(pt(caverns@[edges@[j].0 as int]), pt(caverns@[edges@[j].1 as int])) <= #[trigger] d2(pt(caverns@[a as int]), pt(caverns@[b as int]))
            } by {
                lemma_tree_order_prefix(edges@, old_edges, j);
                if j == k {
                    assert(tree_order(edges@, j) == old_tree);
                    assert forall|a: usize, b: usize| tree_order(edges@, j).contains(a) && b < n && !tree_order(edges@, j).contains(b)
                        implies d2(pt(caverns@[edges@[j].0 as int]), pt(caverns@[edges@[j].1 as int])) <= #[trigger] d2(pt(caverns@[a as int]), pt(caverns@[b as int])) by {
                        let i = choose|i: int| 0 <= i < old_tree.len() && old_tree[i] == a;
                        assert(best_d <= d2(pt(caverns@[old_tree[i] as int]), pt(caverns@[b as int])));
                    }
                } else {
                    assert(edges@[j] == old_edges[j]);
                }
            }
        }
    }
    let tree_len = edges.len();
    let ghost tree_edges = edges@;
    proof {
        if n > 0 {
            lemma_covers_all(in_tree@, n);
            assert forall|v: int| 0 <= v < n implies #[trigger] in_tree@.contains(v as usize) by {
                assert((v as usize) < n);
            }
        }
    }
    let mut i: usize = 0;
    while i < n
        invariant
            n == caverns@.len(),
            n < 0x1000_0000,
            forall|k: int| 0 <= k < caverns@.len() ==> coord_small(#[trigger] caverns@[k]),
            tree_len <= edges@.len(),
            n > 0 ==> tree_len == n - 1,
            n == 0 ==> tree_len == 0,
            i <= n,
            tree_edges.len() == tree_len,
            forall|k: int| 0 <= k < tree_len ==> #[trigger] edges@[k] == tree_edges[k],
            forall|v: int| 0 <= v < n ==> #[trigger] tree_order(tree_edges, tree_len as int).contains(v as usize),
            forall|k: int| 0 <= k < tree_len ==> {
                &&& tree_order(tree_edges, k).contains((#[trigger] tree_edges[k]).0)
                &&& !tree_order(tree_edges, k).contains(tree_edges[k].1)
                &&& tree_edges[k].1 < n
                &&& forall|a: usize, b: usize| tree_order(tree_edges, k).contains(a) && b < n && !tree_order(tree_edges, k).contains(b)
                    ==> d2(pt(caverns@[tree_edges[k].0 as int]), pt(caverns@[tree_edges[k].1 as int])) <= #[trigger] d2(pt(caverns@[a as int]), pt(caverns@[b as int]))
            },
            forall|k: int| tree_len <= k < edges@.len() ==> (#[trigger] edges@[k]).0 < n && edges@[k].1 < n && edges@[k].0 != edges@[k].1,
        decreases n - i,
    {
        let mut near: Option<usize> = None;
        let mut near_d: i32 = 0;
        let mut j: usize = 0;
        while j < n
            invariant
                n == caverns@.len(),
                forall|k: int| 0 <= k < caverns@.len() ==> coord_small(#[trigger] caverns@[k]),
                i < n,
                j <= n,
                near matches Some(v) ==> v < n && v != i,
            decreases n - j,
        {
            if j != i && !edge_listed(&edges, i, j) {
                let d = cavern_d2(caverns, i, j);
                let better = match near {
                    Some(_) => d < near_d,
                    None => true,
                };
                if better {
                    near = Some(j);
                    near_d = d;
                }
            }
            j = j + 1;
        }
        if let Some(j) = near {
            if small_ratio(rng, 3, 10) {
                edges.push((i, j));
            }
        }
        i = i + 1;
    }
    proof {
        assert forall|k: int| 0 <= k <= tree_len implies #[trigger] tree_order(edges@, k) == tree_order(tree_edges, k) by {
            lemma_tree_order_prefix(edges@, tree_edges, k);
        }
        if n == 0 {
            assert(spanning_tree_ok(caverns@, edges@));
        } else {
            assert(tree_order(edges@, n - 1) == tree_order(tree_edges, n - 1));
            assert forall|k: int| 0 <= k < n - 1 implies {
                &&& tree_order(edges@, k).contains((#[trigger] edges@[k]).0)
                &&& !tree_order(edges@, k).contains(edges@[k].1)
                &&& edges@[k].1 < n
                &&& forall|a: usize, b: usize| tree_order(edges@, k).contains(a) && b < n && !tree_order(edges@, k).contains(b)
                    ==> d2(pt(caverns@[edges@[k].0 as int]), pt(caverns@[edges@[k].1 as int])) <= #[trigger] d2(pt(caverns@[a as int]), pt(caverns@[b as int]))
            } by {
                assert(tree_order(edges@, k) == tree_order(tree_edges, k));
                assert(edges@[k] == tree_edges[k]);
            }
        }
    }
    edges
}

/// Exactly `n` distinct values below `n` are all of them.
pub proof fn lemma_covers_all(s: Seq<usize>, n: usize)
    requires
        s.len() == n,
        n > 0,
        forall|i: int, j: int| 0 <= i < j < s.len() ==> s[i] != s[j],
        forall|i: int| 0 <= i < s.len() ==> #[trigger] s[i] < n,
    ensures
        forall|v: usize| v < n ==> #[trigger] s.contains(v),
    decreases n,
{
    let top = (n - 1) as usize;
    if !s.contains(top) {
        // every value is below n - 1 and there are n of them: too many.
        assert forall|i: int| 0 <= i < s.len() implies #[trigger] s[i] < top by {
            assert(s[i] != top);
        }
        if n > 1 {
            let t = s.drop_last();
            lemma_covers_all(t, top);
            assert(t.contains(s.last()));
            let m = choose|m: int| 0 <= m < t.len() && t[m] == s.last();
            assert(s[m] == s[s.len() - 1]);
        } else {
            assert(s[0] < 0);
        }
    } else {
        let k = choose|k: int| 0 <= k < s.len() && s[k] == top;
        let t = s.remove(k);
        assert forall|i: int| 0 <= i < t.len() implies #[trigger] t[i] < top by {
            if i < k {
                assert(t[i] == s[i]);
            } else {
                assert(t[i] == s[i + 1]);
            }
        }
        assert forall|i: int, j: int| 0 <= i < j < t.len() implies t[i] != t[j] by {
            let ii = if i < k { i } else { i + 1 };
            let jj = if j < k { j } else { j + 1 };
            assert(t[i] == s[ii] && t[j] == s[jj]);
        }
        if top > 0 {
            lemma_covers_all(t, top);
        }
        assert forall|v: usize| v < n implies #[trigger] s.contains(v) by {
            if v == top {
                assert(s[k] == top);
            } else {
                assert(t.contains(v));
                let m = choose|m: int| 0 <= m < t.len() && t[m] == v;
                if m < k {
                    assert(s[m] == v);
                } else {
                    assert(s[m + 1] == v);
                }
            }
        }
    }
}

/// Distinct values below `n`, fewer than `n` of them, leave some value below `n` out.
pub proof fn lemma_pigeonhole(s: Seq<usize>, n: usize)
    requires
        s.len() < n,
        forall|i: int, j: int| 0 <= i < j < s.len() ==> s[i] != s[j],
        forall|i: int| 0 <= i < s.len() ==> #[trigger] s[i] < n,
    ensures
        exists|v: usize| v < n && !#[trigger] s.contains(v),
    decreases n,
{
    let top = (n - 1) as usize;
    if !s.contains(top) {
        assert(top < n && !s.contains(top));
    } else {
        let k = choose|k: int| 0 <= k < s.len() && s[k] == top;
        let t = s.remove(k);
        assert forall|i: int| 0 <= i < t.len() implies #[trigger] t[i] < top by {
            if i < k {
                assert(t[i] == s[i]);
            } else {
                assert(t[i] == s[i + 1]);
            }
        }
        assert forall|i: int, j: int| 0 <= i < j < t.len() implies t[i] != t[j] by {
            let ii = if i < k { i } else { i + 1 };
            let jj = if j < k { j } else { j + 1 };
            assert(t[i] == s[ii] && t[j] == s[jj]);
        }
        lemma_pigeonhole(t, top);
        let v = choose|v: usize| v < top && !#[trigger] t.contains(v);
        assert(!s.contains(v)) by {
            if s.contains(v) {
                let m = choose|m: int| 0 <= m < s.len() && s[m] == v;
                if m < k {
                    assert(t[m] == v);
                } else if m > k {
                    assert(t[m - 1] == v);
                }
            }
        }
    }
}

/// The tree order of a prefix of the edges depends only on that prefix.
pub proof fn lemma_tree_order_prefix(edges: Seq<(usize, usize)>, prefix: Seq<(usize, usize)>, k: int)
    requires
        0 <= k <= prefix.len() <= edges.len(),
        forall|j: int| 0 <= j < prefix.len() ==> prefix[j] == edges[j],
    ensures
        tree_order(edges, k) == tree_order(prefix, k),
    decreases k,
{
    if k > 0 {
        lemma_tree_order_prefix(edges, prefix, k - 1);
    }
}

/// A surface tile over carved floor that can host a cave entrance: inside the entrance band,
/// walkable, dry, and not the ship dock.
pub open spec fn entrance_site(loc: Location, carved: Carved, x: int, y: int) -> bool {
    &&& MARGIN + 3 <= x < carved.size - MARGIN - 3
    &&& MARGIN + 3 <= y < carved.size - MARGIN - 3
    &&& carved.spec_get(x, y)
    &&& loc.levels@[0].tile_opt(x, y) matches Some(t) && t.spec_walkable() && !t.spec_is_liquid() && t != Tile::ShipDock
}

/// `count`, or `n` when that is fewer.
pub open spec fn up_to(count: int, n: int) -> int {
    if count <= n { count } else { n }
}

/// Side of the band where entrances may open.
pub open spec fn band_side(carved: Carved) -> int {
    carved.size - 2 * MARGIN - 6
}

/// The entrance sites among the first `k` cells of the band, in row order.
pub open spec fn sites_upto(loc: Location, carved: Carved, k: int) -> Seq<(i32, i32)>
    decreases k,
{
    if k <= 0 || band_side(carved) <= 0 {
        Seq::empty()
    } else {
        let prev = sites_upto(loc, carved, k - 1);
        let x = MARGIN + 3 + (k - 1) % band_side(carved);
        let y = MARGIN + 3 + (k - 1) / band_side(carved);
        if entrance_site(loc, carved, x, y) { prev.push((x as i32, y as i32)) } else { prev }
    }
}

/// Every entrance site of the band, in row order.
pub open spec fn entrance_sites(loc: Location, carved: Carved) -> Seq<(i32, i32)> {
    if band_side(carved) <= 0 { Seq::empty() } else { sites_upto(loc, carved, band_side(carved) * band_side(carved)) }
}

/// Two to four cave entrances on the surface, spread apart, over the first cave level: a random
/// count between two and four of the entrance sites (all of them when there are fewer), picked
/// greedily far apart.
pub fn surface_entrances(rng: &mut SmallRng, loc: &Location, carved: &Carved) -> (v: Vec<(i32, i32)>)
    requires
        loc.levels@.len() > 0,
        loc.levels@[0].wf(),
        carved.wf(),
        carved.size <= 32767,
    ensures
        v@.len() <= 4,
        forall|k: int| 0 <= k < v@.len() ==> entrance_site(*loc, *carved, (#[trigger] v@[k]).0 as int, v@[k].1 as int),
        spread_ok(entrance_sites(*loc, *carved), v@),
        exists|count: int| 2 <= count <= 4 && v@.len() == #[trigger] up_to(count, entrance_sites(*loc, *carved).len() as int),
{
    broadcast use vstd::seq_lib::group_to_multiset_ensures;
    let surface = loc.level(0);
    let size = carved.size;
    let mut candidates: Vec<(i32, i32)> = Vec::new();
    let ghost bw = band_side(*carved);
    let mut y: i32 = MARGIN + 3;
    assert(0 * bw == 0);
    assert(candidates@ =~= sites_upto(*loc, *carved, 0));
    while y < size - MARGIN - 3
        invariant
            surface.wf(),
            *surface == loc.levels@[0],
            carved.wf(),
            size == carved.size,
            size <= 32767,
            bw == band_side(*carved),
            MARGIN + 3 <= y,
            y <= size - MARGIN - 3 || y == MARGIN + 3,
            bw > 0 ==> candidates@ == sites_upto(*loc, *carved, (y - MARGIN - 3) * bw),
            bw <= 0 ==> candidates@.len() == 0,
            forall|k: int| 0 <= k < candidates@.len() ==> entrance_site(*loc, *carved, (#[trigger] candidates@[k]).0 as int, candidates@[k].1 as int)
                && coord_small(candidates@[k]),
        decreases size - y,
    {
        let mut x: i32 = MARGIN + 3;
        while x < size - MARGIN - 3
            invariant
                surface.wf(),
                *surface == loc.levels@[0],
                carved.wf(),
                size == carved.size,
                size <= 32767,
                MARGIN + 3 <= y < size - MARGIN - 3,
                MARGIN + 3 <= x <= size - MARGIN - 3,
                bw == band_side(*carved),
                bw > 0,
                candidates@ == sites_upto(*loc, *carved, (y - MARGIN - 3) * bw + (x - MARGIN - 3)),
                forall|k: int| 0 <= k < candidates@.len() ==> entrance_site(*loc, *carved, (#[trigger] candidates@[k]).0 as int, candidates@[k].1 as int)
                    && coord_small(candidates@[k]),
            decreases size - x,
        {
            let ok = carved.get(x, y) && match surface.get(x, y) {
                Some(t) => t.walkable() && !t.is_liquid() && t != Tile::ShipDock,
                None => false,
            };
            proof {
                let k = (y - MARGIN - 3) * bw + (x - MARGIN - 3);
                lemma_row_major(bw, (x - MARGIN - 3) as int, (y - MARGIN - 3) as int);
                assert(k + 1 > 0);
                assert(ok == entrance_site(*loc, *carved, x as int, y as int));
            }
            if ok {
                candidates.push((x, y));
            }
            x = x + 1;
        }
        assert((y - MARGIN - 3) * bw + (size - MARGIN - 3 - MARGIN - 3) == (y + 1 - MARGIN - 3) * bw) by (nonlinear_arith)
            requires
                bw == size - 2 * MARGIN - 6,
        ;
        y = y + 1;
    }
    proof {
        if bw > 0 {
            assert((y - MARGIN - 3) == bw);
            assert(candidates@ == entrance_sites(*loc, *carved));
        } else {
            assert(candidates@ =~= entrance_sites(*loc, *carved));
        }
    }
    let count = small_range_usize(rng, 2, 5);
    let ghost cands = candidates@;
    let v = pick_spread(rng, candidates, count);
    assert(v@.len() == up_to(count as int, cands.len() as int));
    proof {
        assert forall|k: int| 0 <= k < v@.len() implies entrance_site(*loc, *carved, (#[trigger] v@[k]).0 as int, v@[k].1 as int) by {
            vstd::seq_lib::to_multiset_contains(v@, v@[k]);
            assert(v@.to_multiset().count(v@[k]) > 0);
            vstd::seq_lib::to_multiset_contains(cands, v@[k]);
            let m = choose|m: int| 0 <= m < cands.len() && cands[m] == v@[k];
            assert(entrance_site(*loc, *carved, cands[m].0 as int, cands[m].1 as int));
        }
    }
    v
}

} // verus!

verus! {

/// A creature that roams the caves.
#[derive(Clone, Copy, Debug, PartialEq, Eq, Structural)]
pub enum CaveCreature {
    AlienRunner,
    CrabAlien,
    RatSoldier,
    MushroomCreature,
    PolychromaticSheep,
    MantisAlien,
    LavaCrab,
}

/// What populating a cave level places: a creature, a loot chest, or a supply cache (the deep
/// one below the second level).
#[derive(Clone, Copy, Debug, PartialEq, Eq, Structural)]
pub enum CaveSpawn {
    Creature(CaveCreature),
    LootChest,
    SupplyCache { deep: bool },
}

/// The creatures of each theme with their weights.
pub open spec fn creature_table(theme: CaveTheme) -> Seq<(u32, CaveCreature)> {
    match theme {
        CaveTheme::Rocky => seq![(3u32, CaveCreature::AlienRunner), (3u32, CaveCreature::CrabAlien), (2u32, CaveCreature::RatSoldier)],
        CaveTheme::Fungal => seq![(5u32, CaveCreature::MushroomCreature), (2u32, CaveCreature::CrabAlien), (2u32, CaveCreature::PolychromaticSheep)],
        CaveTheme::Flooded => seq![(4u32, CaveCreature::CrabAlien), (2u32, CaveCreature::AlienRunner)],
        CaveTheme::Crystal => seq![(4u32, CaveCreature::MantisAlien), (2u32, CaveCreature::AlienRunner)],
        CaveTheme::Molten => seq![(1u32, CaveCreature::LavaCrab)],
    }
}

/// Total weight of `c` in a spawn table.
pub open spec fn weight_in(table: Seq<(u32, CaveCreature)>, c: CaveCreature) -> int
    decreases table.len(),
{
    if table.len() == 0 {
        0
    } else {
        weight_in(table.drop_last(), c) + if table.last().1 == c { table.last().0 as int } else { 0 }
    }
}

/// Where each creature lives, creature by creature: alien runners in rocky (3), flooded (2) and
/// crystal (2) caves; crab aliens in rocky (3), fungal (2) and flooded (4) ones; rat soldiers only
/// in rocky caves (2); mushroom creatures (5) and polychromatic sheep (2) only in fungal ones;
/// mantis aliens only in crystal caves (4); lava crabs only in molten ones (1). Each creature is
/// listed at most once per theme, and a theme lists nothing else.
pub proof fn law_creature_habitats(theme: CaveTheme, c: CaveCreature)
    ensures
        weight_in(creature_table(theme), c) == match c {
            CaveCreature::AlienRunner => match theme { CaveTheme::Rocky => 3int, CaveTheme::Flooded => 2, CaveTheme::Crystal => 2, _ => 0 },
            CaveCreature::CrabAlien => match theme { CaveTheme::Rocky => 3int, CaveTheme::Fungal => 2, CaveTheme::Flooded => 4, _ => 0 },
            CaveCreature::RatSoldier => if theme == CaveTheme::Rocky { 2int } else { 0 },
            CaveCreature::MushroomCreature => if theme == CaveTheme::Fungal { 5int } else { 0 },
            CaveCreature::PolychromaticSheep => if theme == CaveTheme::Fungal { 2int } else { 0 },
            CaveCreature::MantisAlien => if theme == CaveTheme::Crystal { 4int } else { 0 },
            CaveCreature::LavaCrab => if theme == CaveTheme::Molten { 1int } else { 0 },
        },
        forall|i: int, j: int| 0 <= i < j < creature_table(theme).len() ==> (#[trigger] creature_table(theme)[i]).1 != (#[trigger] creature_table(theme)[j]).1,
        forall|i: int| 0 <= i < creature_table(theme).len() ==> (#[trigger] creature_table(theme)[i]).0 > 0,
{
    reveal_with_fuel(weight_in, 4);
}

impl CaveTheme {
    /// The theme's creatures with their weights.
    pub fn creatures(self) -> (t: Vec<(u32, CaveCreature)>)
        ensures
            t@ == creature_table(self),
    {
        let t = match self {
            CaveTheme::Rocky => vec![(3, CaveCreature::AlienRunner), (3, CaveCreature::CrabAlien), (2, CaveCreature::RatSoldier)],
            CaveTheme::Fungal => vec![(5, CaveCreature::MushroomCreature), (2, CaveCreature::CrabAlien), (2, CaveCreature::PolychromaticSheep)],
            CaveTheme::Flooded => vec![(4, CaveCreature::CrabAlien), (2, CaveCreature::AlienRunner)],
            CaveTheme::Crystal => vec![(4, CaveCreature::MantisAlien), (2, CaveCreature::AlienRunner)],
            CaveTheme::Molten => vec![(1, CaveCreature::LavaCrab)],
        };
        assert(t@ =~= creature_table(self));
        t
    }
}

/// What a supply cache holds: the deep one below the second level, the middle one above.
pub fn cache_contents(deep: bool) -> (c: Vec<(crate::item::Item, u32)>)
    ensures
        deep ==> c@ == seq![(crate::item::Item::ChainMail, 1u32), (crate::item::Item::HealthPotion, 3u32),
            (crate::item::Item::Crystal, 4u32), (crate::item::Item::GoldCoin, 25u32)],
        !deep ==> c@ == seq![(crate::item::Item::PipeRevolver, 1u32), (crate::item::Item::HealthPotion, 2u32),
            (crate::item::Item::GoldCoin, 14u32)],
{
    let c = if deep {
        vec![(crate::item::Item::ChainMail, 1), (crate::item::Item::HealthPotion, 3), (crate::item::Item::Crystal, 4), (crate::item::Item::GoldCoin, 25)]
    } else {
        vec![(crate::item::Item::PipeRevolver, 1), (crate::item::Item::HealthPotion, 2), (crate::item::Item::GoldCoin, 14)]
    };
    assert(deep ==> c@ =~= seq![(crate::item::Item::ChainMail, 1u32), (crate::item::Item::HealthPotion, 3u32),
        (crate::item::Item::Crystal, 4u32), (crate::item::Item::GoldCoin, 25u32)]);
    assert(!deep ==> c@ =~= seq![(crate::item::Item::PipeRevolver, 1u32), (crate::item::Item::HealthPotion, 2u32),
        (crate::item::Item::GoldCoin, 14u32)]);
    c
}

/// A cell where a creature may make its lair: walkable and a safe distance from the entries.
pub open spec fn lair_ok(level: Level, dist: Seq<i32>, size: int, x: int, y: int) -> bool {
    dist[cell_index(size, x, y)] >= SAFE_RADIUS && level.spec_walkable(x, y)
}

/// The lair cells among the first `k` cells of the square, in row order.
pub open spec fn lairs_upto(level: Level, dist: Seq<i32>, size: int, k: int) -> Seq<(i32, i32)>
    decreases k,
{
    if k <= 0 || size <= 0 {
        Seq::empty()
    } else {
        let prev = lairs_upto(level, dist, size, k - 1);
        let x = (k - 1) % size;
        let y = (k - 1) / size;
        if lair_ok(level, dist, size, x, y) { prev.push((x as i32, y as i32)) } else { prev }
    }
}

proof fn lemma_row_major(size: int, x: int, y: int)
    requires
        0 <= x < size,
        0 <= y,
    ensures
        (y * size + x) % size == x,
        (y * size + x) / size == y,
{
    vstd::arithmetic::div_mod::lemma_fundamental_div_mod_converse(y * size + x, size, y, x);
}

/// Lair cells lie in the square, qualify, and come in strictly increasing row order.
proof fn lemma_lairs(level: Level, dist: Seq<i32>, size: int, k: int)
    requires
        side_ok(size),
        0 <= k <= size * size,
        dist.len() == size * size,
    ensures
        forall|i: int| 0 <= i < lairs_upto(level, dist, size, k).len() ==> {
            let p = #[trigger] lairs_upto(level, dist, size, k)[i];
            &&& in_square(size, p.0 as int, p.1 as int)
            &&& cell_index(size, p.0 as int, p.1 as int) < k
            &&& lair_ok(level, dist, size, p.0 as int, p.1 as int)
        },
        forall|i: int, j: int| 0 <= i < j < lairs_upto(level, dist, size, k).len() ==>
            cell_index(size, lairs_upto(level, dist, size, k)[i].0 as int, lairs_upto(level, dist, size, k)[i].1 as int)
                < cell_index(size, lairs_upto(level, dist, size, k)[j].0 as int, lairs_upto(level, dist, size, k)[j].1 as int),
        lairs_upto(level, dist, size, k).len() <= k,
    decreases k,
{
    if k > 0 && size > 0 {
        lemma_lairs(level, dist, size, k - 1);
        let x = (k - 1) % size;
        let y = (k - 1) / size;
        vstd::arithmetic::div_mod::lemma_fundamental_div_mod(k - 1, size);
        assert(0 <= x < size);
        assert(0 <= y < size) by (nonlinear_arith)
            requires
                y == (k - 1) / size,
                0 <= k - 1 < size * size,
                0 < size,
                k - 1 == size * y + x,
                0 <= x < size,
        ;
        assert(cell_index(size, x, y) == k - 1) by (nonlinear_arith)
            requires
                k - 1 == size * y + x,
        ;
        lemma_cell_index(size, x, y);
    }
}

/// The lair cells of the square, in row order.
fn collect_lairs(level: &Level, dist: &[i32], size: i32) -> (v: Vec<(i32, i32)>)
    requires
        level.wf(),
        side_ok(size as int),
        dist@.len() == size * size,
    ensures
        v@ == lairs_upto(*level, dist@, size as int, size * size),
{
    let mut v: Vec<(i32, i32)> = Vec::new();
    let mut y: i32 = 0;
    while y < size
        invariant
            level.wf(),
            side_ok(size as int),
            dist@.len() == size * size,
            0 <= y <= size,
            v@ == lairs_upto(*level, dist@, size as int, y * size),
        decreases size - y,
    {
        let mut x: i32 = 0;
        while x < size
            invariant
                level.wf(),
                side_ok(size as int),
                dist@.len() == size * size,
                0 <= y < size,
                0 <= x <= size,
                v@ == lairs_upto(*level, dist@, size as int, y * size + x),
            decreases size - x,
        {
            proof {
                lemma_cell_index(size as int, x as int, y as int);
                lemma_row_major(size as int, x as int, y as int);
            }
            let i = (y * size + x) as usize;
            if dist[i] >= SAFE_RADIUS && level.walkable(x, y) {
                v.push((x, y));
            }
            x = x + 1;
        }
        assert(y * size + size == (y + 1) * size) by (nonlinear_arith);
        y = y + 1;
    }
    v
}

} // verus!

verus! {

/// The hoard sites: each cavern centre's snapped cell (in cavern order), with its distance from
/// the entries, when that is at least ten steps.
pub open spec fn hoard_candidates(snaps: Seq<Option<(i32, i32)>>, dist: Seq<i32>, size: int) -> Seq<((i32, i32), i32)>
    decreases snaps.len(),
{
    if snaps.len() == 0 {
        Seq::empty()
    } else {
        let prev = hoard_candidates(snaps.drop_last(), dist, size);
        match snaps.last() {
            Some(p) => {
                let d = dist[cell_index(size, p.0 as int, p.1 as int)];
                if d >= 10 { prev.push((p, d)) } else { prev }
            },
            None => prev,
        }
    }
}

/// `e` placed into the list `s` after every entry at least as far as it.
pub open spec fn insert_desc(s: Seq<((i32, i32), i32)>, e: ((i32, i32), i32)) -> Seq<((i32, i32), i32)>
    decreases s.len(),
{
    if s.len() == 0 {
        seq![e]
    } else if s[0].1 < e.1 {
        seq![e] + s
    } else {
        seq![s[0]] + insert_desc(s.drop_first(), e)
    }
}

/// `s` sorted by distance, farthest first, keeping the order of equally far entries.
pub open spec fn sort_desc(s: Seq<((i32, i32), i32)>) -> Seq<((i32, i32), i32)>
    decreases s.len(),
{
    if s.len() == 0 { s } else { insert_desc(sort_desc(s.drop_last()), s.last()) }
}

/// `s` with each run of equal neighbours cut to its first entry.
pub open spec fn dedup_runs(s: Seq<((i32, i32), i32)>) -> Seq<((i32, i32), i32)>
    decreases s.len(),
{
    if s.len() == 0 {
        s
    } else {
        let prev = dedup_runs(s.drop_last());
        if s.len() >= 2 && s[s.len() - 2] == s.last() { prev } else { prev.push(s.last()) }
    }
}

/// Entries are in non-increasing distance.
pub open spec fn farthest_first(s: Seq<((i32, i32), i32)>) -> bool {
    forall|i: int, j: int| 0 <= i < j < s.len() ==> s[i].1 >= s[j].1
}

proof fn lemma_insert_at(s: Seq<((i32, i32), i32)>, e: ((i32, i32), i32), pos: int)
    requires
        0 <= pos <= s.len(),
        forall|j: int| 0 <= j < pos ==> !(s[j].1 < e.1),
        pos == s.len() || s[pos].1 < e.1,
    ensures
        s.insert(pos, e) == insert_desc(s, e),
    decreases s.len(),
{
    if s.len() == 0 {
        assert(s.insert(pos, e) =~= seq![e]);
    } else if pos == 0 {
        assert(s.insert(pos, e) =~= seq![e] + s);
    } else {
        let t = s.drop_first();
        assert forall|j: int| 0 <= j < pos - 1 implies !(t[j].1 < e.1) by {
            assert(t[j] == s[j + 1]);
        }
        lemma_insert_at(t, e, pos - 1);
        assert(s.insert(pos, e) =~= seq![s[0]] + t.insert(pos - 1, e));
    }
}

proof fn lemma_insert_desc_sorted(s: Seq<((i32, i32), i32)>, e: ((i32, i32), i32))
    requires
        farthest_first(s),
    ensures
        farthest_first(insert_desc(s, e)),
        insert_desc(s, e).len() == s.len() + 1,
        forall|i: int| 0 <= i < insert_desc(s, e).len() ==> #[trigger] insert_desc(s, e)[i] == e || s.contains(insert_desc(s, e)[i]),
    decreases s.len(),
{
    let r = insert_desc(s, e);
    if s.len() == 0 {
    } else if s[0].1 < e.1 {
        assert forall|i: int| 0 <= i < r.len() implies #[trigger] r[i] == e || s.contains(r[i]) by {
            if i > 0 {
                assert(r[i] == s[i - 1]);
            }
        }
    } else {
        let t = s.drop_first();
        lemma_insert_desc_sorted(t, e);
        let rt = insert_desc(t, e);
        assert(r =~= seq![s[0]] + rt);
        assert forall|i: int| 0 <= i < r.len() implies #[trigger] r[i] == e || s.contains(r[i]) by {
            if i == 0 {
                assert(s.contains(s[0]));
            } else {
                assert(r[i] == rt[i - 1]);
                if rt[i - 1] != e {
                    let j = choose|j: int| 0 <= j < t.len() && t[j] == rt[i - 1];
                    assert(s[j + 1] == t[j]);
                }
            }
        }
        assert forall|i: int, j: int| 0 <= i < j < r.len() implies r[i].1 >= r[j].1 by {
            if i == 0 {
                assert(r[j] == rt[j - 1]);
                if rt[j - 1] != e {
                    let k = choose|k: int| 0 <= k < t.len() && t[k] == rt[j - 1];
                    assert(s[k + 1] == t[k]);
                }
            } else {
                assert(r[i] == rt[i - 1] && r[j] == rt[j - 1]);
            }
        }
    }
}

/// Sorting leaves the list farthest first.
proof fn lemma_sort_desc_sorted(s: Seq<((i32, i32), i32)>)
    ensures
        farthest_first(sort_desc(s)),
        sort_desc(s).len() == s.len(),
    decreases s.len(),
{
    if s.len() > 0 {
        lemma_sort_desc_sorted(s.drop_last());
        lemma_insert_desc_sorted(sort_desc(s.drop_last()), s.last());
    }
}

/// Cutting repeats keeps the last entry and the order, and takes entries of the list only.
proof fn lemma_dedup_runs(s: Seq<((i32, i32), i32)>)
    ensures
        s.len() > 0 ==> dedup_runs(s).len() > 0 && dedup_runs(s).last() == s.last(),
        forall|i: int| 0 <= i < dedup_runs(s).len() ==> s.contains(#[trigger] dedup_runs(s)[i]),
        farthest_first(s) ==> farthest_first(dedup_runs(s)),
        dedup_runs(s).len() <= s.len(),
    decreases s.len(),
{
    if s.len() > 0 {
        let t = s.drop_last();
        lemma_dedup_runs(t);
        let d = dedup_runs(s);
        let dt = dedup_runs(t);
        assert forall|i: int| 0 <= i < d.len() implies s.contains(#[trigger] d[i]) by {
            if i < dt.len() {
                assert(d[i] == dt[i]);
                let j = choose|j: int| 0 <= j < t.len() && t[j] == dt[i];
                assert(s[j] == t[j]);
            } else {
                assert(d[i] == s.last());
            }
        }
        if farthest_first(s) {
            assert(farthest_first(t)) by {
                assert forall|i: int, j: int| 0 <= i < j < t.len() implies t[i].1 >= t[j].1 by {
                    assert(t[i] == s[i] && t[j] == s[j]);
                }
            }
            assert forall|i: int, j: int| 0 <= i < j < d.len() implies d[i].1 >= d[j].1 by {
                if j < dt.len() {
                    assert(d[i] == dt[i] && d[j] == dt[j]);
                } else {
                    assert(d[j] == s.last());
                    assert(d[i] == dt[i]);
                    let k = choose|k: int| 0 <= k < t.len() && t[k] == dt[i];
                    assert(s[k] == t[k]);
                }
            }
        }
    }
}

/// Inserts `e` into the farthest-first list after every entry at least as far.
fn insert_by_distance(sorted: &mut Vec<((i32, i32), i32)>, e: ((i32, i32), i32))
    ensures
        final(sorted)@ == insert_desc(old(sorted)@, e),
{
    let mut i: usize = 0;
    while i < sorted.len() && !(sorted[i].1 < e.1)
        invariant
            i <= sorted@.len(),
            forall|j: int| 0 <= j < i ==> !(sorted@[j].1 < e.1),
        decreases sorted@.len() - i,
    {
        i = i + 1;
    }
    proof {
        lemma_insert_at(sorted@, e, i as int);
    }
    sorted.insert(i, e);
}

/// The hoards, farthest first, with repeated neighbours dropped.
fn rank_hoards(candidates: &Vec<((i32, i32), i32)>) -> (r: Vec<((i32, i32), i32)>)
    ensures
        r@ == dedup_runs(sort_desc(candidates@)),
{
    let mut sorted: Vec<((i32, i32), i32)> = Vec::new();
    let mut i: usize = 0;
    while i < candidates.len()
        invariant
            i <= candidates@.len(),
            sorted@ == sort_desc(candidates@.subrange(0, i as int)),
        decreases candidates@.len() - i,
    {
        assert(candidates@.subrange(0, i as int + 1).drop_last() =~= candidates@.subrange(0, i as int));
        insert_by_distance(&mut sorted, candidates[i]);
        i = i + 1;
    }
    assert(candidates@.subrange(0, candidates@.len() as int) =~= candidates@);
    let mut out: Vec<((i32, i32), i32)> = Vec::new();
    let mut j: usize = 0;
    while j < sorted.len()
        invariant
            j <= sorted@.len(),
            sorted@ == sort_desc(candidates@),
            out@ == dedup_runs(sorted@.subrange(0, j as int)),
        decreases sorted@.len() - j,
    {
        let e = sorted[j];
        let t = Ghost(sorted@.subrange(0, j as int));
        assert(sorted@.subrange(0, j as int + 1).drop_last() =~= t@);
        proof {
            lemma_dedup_runs(t@);
        }
        let repeat = if out.len() == 0 {
            false
        } else {
            let ((lx, ly), ld) = out[out.len() - 1];
            let ((ex, ey), ed) = e;
            lx == ex && ly == ey && ld == ed
        };
        proof {
            if j > 0 {
                assert(t@.last() == sorted@[j - 1]);
                assert(repeat == (sorted@[j - 1] == e));
            }
        }
        if !repeat {
            out.push(e);
        }
        j = j + 1;
    }
    assert(sorted@.subrange(0, sorted@.len() as int) =~= sorted@);
    out
}

/// The ranked hoards are farthest first, so the chests placed on the first of them stand no
/// nearer the entries than any hoard left out.
pub proof fn law_hoards_farthest_first(candidates: Seq<((i32, i32), i32)>)
    ensures
        farthest_first(dedup_runs(sort_desc(candidates))),
{
    lemma_sort_desc_sorted(candidates);
    lemma_dedup_runs(sort_desc(candidates));
}

} // verus!

verus! {

/// How many creatures a level gets: one per 450 lair cells, between 6 and 24, plus two per level
/// of depth.
pub open spec fn creature_budget(lairs: int, depth: int) -> int {
    let q = lairs / 450;
    (if q < 6 { 6 } else if q > 24 { 24 } else { q }) + depth * 2
}

/// A creature some roll of the theme's table lands on.
pub open spec fn creature_rolled(theme: CaveTheme, c: CaveCreature) -> bool {
    exists|roll: int, i: int| 0 <= roll < weight_prefix(creature_table(theme), creature_table(theme).len() as int)
        && #[trigger] lands_on(creature_table(theme), roll, i) && c == creature_table(theme)[i].1
}

/// How many chests a level gets: one per three caverns, between 2 and 6.
pub open spec fn chest_budget(caverns: int) -> int {
    let q = caverns / 3;
    if q < 2 { 2 } else if q > 6 { 6 } else { q }
}

/// The creature budget is the number of reachable lairs per 450, held between 6 and 24, plus two
/// per level of depth: it never falls as lairs or depth grow, and each level deeper adds two.
pub proof fn law_creature_budget(lairs: int, more: int, depth: int)
    requires
        0 <= lairs <= more,
        0 <= depth,
    ensures
        6 + 2 * depth <= creature_budget(lairs, depth) <= 24 + 2 * depth,
        creature_budget(lairs, depth) <= creature_budget(more, depth),
        creature_budget(lairs, depth + 1) == creature_budget(lairs, depth) + 2,
        lairs < 3150 ==> creature_budget(lairs, depth) == 6 + 2 * depth,
        lairs >= 11250 ==> creature_budget(lairs, depth) == 24 + 2 * depth,
        2700 <= lairs < 11250 ==> creature_budget(lairs, depth) == lairs / 450 + 2 * depth,
{
    assert(lairs / 450 <= more / 450) by (nonlinear_arith)
        requires
            0 <= lairs <= more,
    ;
    assert(lairs < 3150 ==> lairs / 450 <= 6) by (nonlinear_arith)
        requires
            0 <= lairs,
    ;
    assert(lairs >= 11250 ==> lairs / 450 >= 25) by (nonlinear_arith)
        requires
            0 <= lairs,
    ;
    assert(2700 <= lairs < 11250 ==> 6 <= lairs / 450 <= 24) by (nonlinear_arith)
        requires
            0 <= lairs,
    ;
}

/// The chest budget is a third of the caverns, held between 2 and 6, and never falls as caverns
/// are added.
pub proof fn law_chest_budget(caverns: int, more: int)
    requires
        0 <= caverns <= more,
    ensures
        2 <= chest_budget(caverns) <= 6,
        chest_budget(caverns) <= chest_budget(more),
        caverns < 9 ==> chest_budget(caverns) == 2,
        caverns >= 18 ==> chest_budget(caverns) == 6,
        9 <= caverns < 18 ==> chest_budget(caverns) == caverns / 3,
{
    assert(caverns / 3 <= more / 3) by (nonlinear_arith)
        requires
            0 <= caverns <= more,
    ;
}

/// At most one chest is a supply cache: the first, and only from the second level down; it is the
/// deep cache exactly from the third level down. Every other chest is a loot chest.
pub proof fn law_chest_kinds(i: int, depth: int)
    requires
        0 <= i,
    ensures
        (chest_kind(i, depth) is SupplyCache) == (i == 0 && depth >= 2),
        chest_kind(i, depth) is SupplyCache ==> (chest_kind(i, depth)->deep == (depth >= 3)),
        !(chest_kind(i, depth) is SupplyCache) ==> chest_kind(i, depth) == CaveSpawn::LootChest,
{
}

/// The `i`th chest: the farthest one is a supply cache from the second level down, the rest loot chests.
pub open spec fn chest_kind(i: int, depth: int) -> CaveSpawn {
    if i == 0 && depth >= 2 { CaveSpawn::SupplyCache { deep: depth >= 3 } } else { CaveSpawn::LootChest }
}

/// `chests` stand on the first hoards, as many as the chest budget allows.
pub open spec fn chests_placed(chests: Seq<(i32, i32, CaveSpawn)>, hoards: Seq<((i32, i32), i32)>, depth: int, caverns: int) -> bool {
    let n = if chest_budget(caverns) < hoards.len() { chest_budget(caverns) } else { hoards.len() as int };
    &&& chests.len() == n
    &&& forall|i: int| 0 <= i < n ==> ((#[trigger] chests[i]).0, chests[i].1) == hoards[i].0 && chests[i].2 == chest_kind(i, depth)
}

/// Creatures and loot for one cave level, placed by breadth-first distance `dist` from its entry
/// points: creatures on distinct lair cells (walkable, a safe distance in) drawn at random, then
/// chests on the hoards (cavern centres snapped to reachable ground at least ten steps in),
/// farthest first, the first of them a supply cache from the second level down.
#[verifier::spinoff_prover]
pub fn populate(level: &Level, theme: CaveTheme, dist: &[i32], caverns: &[(i32, i32)], depth: usize, rng: &mut SmallRng)
    -> (spawns: Vec<(i32, i32, CaveSpawn)>)
    requires
        level.wf(),
        level.width <= 46340,
        dist@.len() == level.width * level.width,
        forall|i: int| 0 <= i < caverns@.len() ==> i32::MIN + 3 <= (#[trigger] caverns@[i]).0 <= i32::MAX - 3
            && i32::MIN + 3 <= caverns@[i].1 <= i32::MAX - 3,
        depth * 2 + 24 <= usize::MAX,
    ensures
        ({
            let size = level.width as int;
            let lairs = lairs_upto(*level, dist@, size, size * size);
            let budget = creature_budget(lairs.len() as int, depth as int);
            let k = if budget < lairs.len() { budget } else { lairs.len() as int };
            &&& k <= spawns@.len()
            &&& forall|i: int| 0 <= i < k ==> {
                let s = #[trigger] spawns@[i];
                &&& s.2 is Creature
                &&& creature_rolled(theme, s.2->Creature_0)
                &&& lairs.contains((s.0, s.1))
                &&& lair_ok(*level, dist@, size, s.0 as int, s.1 as int)
            }
            &&& forall|i: int, j: int| 0 <= i < j < k ==> (spawns@[i].0, spawns@[i].1) != (spawns@[j].0, spawns@[j].1)
            &&& exists|snaps: Seq<Option<(i32, i32)>>| {
                &&& snaps.len() == caverns@.len()
                &&& forall|i: int| 0 <= i < caverns@.len() ==> #[trigger] snapped(*level, dist@, caverns@[i].0 as int, caverns@[i].1 as int, snaps[i])
                &&& chests_placed(spawns@.subrange(k, spawns@.len() as int),
                    dedup_runs(sort_desc(hoard_candidates(snaps, dist@, size))), depth as int, caverns@.len() as int)
            }
        }),
        ({
            let size = level.width as int;
            let lairs = lairs_upto(*level, dist@, size, size * size);
            let budget = creature_budget(lairs.len() as int, depth as int);
            let k = if budget < lairs.len() { budget } else { lairs.len() as int };
            creatures_from_draws(lairs, theme, spawns@.take(k))
        }),
{
    let size = level.width as i32;
    let ghost sz = size as int;
    proof {
        assert(side_ok(sz)) by (nonlinear_arith)
            requires
                0 <= sz <= 46340,
        ;
        lemma_lairs(*level, dist@, sz, sz * sz);
    }
    let ghost all_lairs = lairs_upto(*level, dist@, sz, sz * sz);
    let mut lairs = collect_lairs(level, dist, size);
    let reachable = lairs.len();
    let q = reachable / 450;
    let base: usize = if q < 6 { 6 } else if q > 24 { 24 } else { q };
    let mut remaining: usize = base + depth * 2;
    let ghost budget = remaining as int;
    let table = theme.creatures();
    proof {
        reveal_with_fuel(weight_prefix, 4);
    }
    let mut spawns: Vec<(i32, i32, CaveSpawn)> = Vec::new();
    let total = weight_total(table.as_slice());
    let ghost mut idxs: Seq<usize> = Seq::empty();
    let ghost mut rolls: Seq<int> = Seq::empty();
    while remaining > 0 && lairs.len() > 0
        invariant
            total == weight_prefix(table@, table@.len() as int),
            idxs.len() == spawns@.len() && rolls.len() == spawns@.len(),
            forall|i: int| 0 <= i < idxs.len() ==> (#[trigger] idxs[i]) < all_lairs.len() - i,
            lair_picks(all_lairs, idxs).1 == lairs@,
            lair_picks(all_lairs, idxs).0.len() == spawns@.len(),
            forall|i: int| 0 <= i < spawns@.len() ==> lair_picks(all_lairs, idxs).0[i] == ((#[trigger] spawns@[i]).0, spawns@[i].1),
            forall|i: int| 0 <= i < spawns@.len() ==> 0 <= #[trigger] rolls[i] < total
                && creature_at(theme, rolls[i], spawns@[i].2->Creature_0),
            table@ == creature_table(theme),
            weight_prefix(table@, table@.len() as int) > 0,
            forall|k: int| 0 <= k <= table@.len() ==> #[trigger] weight_prefix(table@, k) <= u32::MAX,
            spawns@.len() + lairs@.len() == all_lairs.len(),
            spawns@.len() + remaining == budget,
            forall|i: int| 0 <= i < spawns@.len() ==> {
                let s = #[trigger] spawns@[i];
                &&& s.2 is Creature
                &&& creature_rolled(theme, s.2->Creature_0)
                &&& all_lairs.contains((s.0, s.1))
                &&& !lairs@.contains((s.0, s.1))
            },
            forall|i: int, j: int| 0 <= i < j < spawns@.len() ==> (spawns@[i].0, spawns@[i].1) != (spawns@[j].0, spawns@[j].1),
            forall|i: int| 0 <= i < lairs@.len() ==> all_lairs.contains(#[trigger] lairs@[i]),
            forall|i: int, j: int| 0 <= i < j < lairs@.len() ==> lairs@[i] != lairs@[j],
        decreases lairs@.len(),
    {
        let ghost before = lairs@;
        let idx = small_range_usize(rng, 0, lairs.len());
        let (x, y) = lairs.swap_remove(idx);
        let roll = small_range_usize(rng, 0, total as usize);
        let c = weighted_at(table.as_slice(), roll);
        let ghost old_spawns = spawns@;
        let ghost old_idxs = idxs;
        let ghost old_rolls = rolls;
        spawns.push((x, y, CaveSpawn::Creature(c)));
        remaining = remaining - 1;
        proof {
            idxs = idxs.push(idx);
            rolls = rolls.push(roll as int);
            assert forall|i: int| 0 <= i < idxs.len() implies (#[trigger] idxs[i]) < all_lairs.len() - i by {
                if i < old_idxs.len() {
                    assert(idxs[i] == old_idxs[i]);
                }
            }
            assert(idxs.drop_last() =~= old_idxs);
            assert(creature_at(theme, roll as int, c));
            assert forall|i: int| 0 <= i < spawns@.len() implies lair_picks(all_lairs, idxs).0[i] == ((#[trigger] spawns@[i]).0, spawns@[i].1) by {
                if i < old_spawns.len() {
                    assert(spawns@[i] == old_spawns[i]);
                }
            }
            assert forall|i: int| 0 <= i < spawns@.len() implies 0 <= #[trigger] rolls[i] < total
                && creature_at(theme, rolls[i], spawns@[i].2->Creature_0) by {
                if i < old_spawns.len() {
                    assert(spawns@[i] == old_spawns[i] && rolls[i] == old_rolls[i]);
                }
            }
            assert(lairs@ =~= before.update(idx as int, before.last()).drop_last());
            assert(all_lairs.contains(before[idx as int]));
            assert forall|i: int| 0 <= i < lairs@.len() implies all_lairs.contains(#[trigger] lairs@[i]) by {
                if i == idx {
                    assert(lairs@[i] == before[before.len() - 1]);
                } else {
                    assert(lairs@[i] == before[i]);
                }
            }
            assert forall|i: int, j: int| 0 <= i < j < lairs@.len() implies lairs@[i] != lairs@[j] by {
                let bi = if i == idx { before.len() - 1 } else { i };
                let bj = if j == idx { before.len() - 1 } else { j };
                assert(lairs@[i] == before[bi] && lairs@[j] == before[bj]);
            }
            assert(!lairs@.contains((x, y))) by {
                if lairs@.contains((x, y)) {
                    let i = choose|i: int| 0 <= i < lairs@.len() && lairs@[i] == (x, y);
                    let bi = if i == idx { before.len() - 1 } else { i };
                    assert(before[bi] == before[idx as int]);
                }
            }
            assert forall|i: int| 0 <= i < spawns@.len() implies {
                let s = #[trigger] spawns@[i];
                &&& s.2 is Creature
                &&& creature_rolled(theme, s.2->Creature_0)
                &&& all_lairs.contains((s.0, s.1))
                &&& !lairs@.contains((s.0, s.1))
            } by {
                if i < old_spawns.len() {
                    assert(spawns@[i] == old_spawns[i]);
                    let s = old_spawns[i];
                    assert(!before.contains((s.0, s.1)));
                    if lairs@.contains((s.0, s.1)) {
                        let j = choose|j: int| 0 <= j < lairs@.len() && lairs@[j] == (s.0, s.1);
                        let bj = if j == idx { before.len() - 1 } else { j };
                        assert(before[bj] == lairs@[j]);
                    }
                }
            }
            assert forall|i: int, j: int| 0 <= i < j < spawns@.len() implies (spawns@[i].0, spawns@[i].1) != (spawns@[j].0, spawns@[j].1) by {
                if j == old_spawns.len() {
                    assert(spawns@[i] == old_spawns[i]);
                    assert(before.contains((x, y)));
                } else {
                    assert(spawns@[i] == old_spawns[i] && spawns@[j] == old_spawns[j]);
                }
            }
        }
    }
    let ghost k = spawns@.len() as int;
    proof {
        assert(budget == creature_budget(all_lairs.len() as int, depth as int));
        assert(k == (if budget < all_lairs.len() { budget } else { all_lairs.len() as int }));
        assert(spawns@.take(k) =~= spawns@);
        assert(creatures_drawn(all_lairs, theme, spawns@.take(k), idxs, rolls));
    }
    proof {
        assert forall|i: int| 0 <= i < k implies lair_ok(*level, dist@, sz, (#[trigger] spawns@[i]).0 as int, spawns@[i].1 as int) by {
            let s = spawns@[i];
            let j = choose|j: int| 0 <= j < all_lairs.len() && all_lairs[j] == (s.0, s.1);
            assert(lair_ok(*level, dist@, sz, all_lairs[j].0 as int, all_lairs[j].1 as int));
        }
    }
    // Hoards: each cavern centre snapped to reachable ground, kept when far enough in.
    let mut candidates: Vec<((i32, i32), i32)> = Vec::new();
    let ghost mut snaps: Seq<Option<(i32, i32)>> = Seq::empty();
    let mut c: usize = 0;
    while c < caverns.len()
        invariant
            level.wf(),
            level.width <= 46340,
            size as int == level.width,
            sz == size as int,
            side_ok(sz),
            dist@.len() == level.width * level.width,
            forall|i: int| 0 <= i < caverns@.len() ==> i32::MIN + 3 <= (#[trigger] caverns@[i]).0 <= i32::MAX - 3
                && i32::MIN + 3 <= caverns@[i].1 <= i32::MAX - 3,
            c <= caverns@.len(),
            snaps.len() == c,
            forall|i: int| 0 <= i < c ==> #[trigger] snapped(*level, dist@, caverns@[i].0 as int, caverns@[i].1 as int, snaps[i]),
            candidates@ == hoard_candidates(snaps, dist@, sz),
        decreases caverns@.len() - c,
    {
        let (cx, cy) = caverns[c];
        let r = snap_reachable(level, dist, cx, cy);
        let ghost snaps0 = snaps;
        proof {
            snaps = snaps.push(r);
            assert(snaps.drop_last() =~= snaps0);
        }
        match r {
            Some((x, y)) => {
                proof {
                    lemma_cell_index(sz, x as int, y as int);
                }
                let d = dist[(y * size + x) as usize];
                if d >= 10 {
                    candidates.push(((x, y), d));
                }
            },
            None => {},
        }
        c = c + 1;
    }
    let hoards = rank_hoards(&candidates);
    let cq = caverns.len() / 3;
    let chest_count: usize = if cq < 2 { 2 } else if cq > 6 { 6 } else { cq };
    let n = if chest_count < hoards.len() { chest_count } else { hoards.len() };
    let ghost creatures = spawns@;
    let mut i: usize = 0;
    while i < n
        invariant
            n <= hoards@.len(),
            i <= n,
            creatures.len() == k,
            spawns@.len() == k + i,
            spawns@.subrange(0, k) == creatures,
            forall|j: int| 0 <= j < i ==> ((#[trigger] spawns@[k + j]).0, spawns@[k + j].1) == hoards@[j].0
                && spawns@[k + j].2 == chest_kind(j, depth as int),
        decreases n - i,
    {
        let ((x, y), _) = hoards[i];
        let kind = if i == 0 && depth >= 2 { CaveSpawn::SupplyCache { deep: depth >= 3 } } else { CaveSpawn::LootChest };
        let ghost before = spawns@;
        spawns.push((x, y, kind));
        proof {
            assert(spawns@.subrange(0, k) =~= before.subrange(0, k));
            assert forall|j: int| 0 <= j < i + 1 implies ((#[trigger] spawns@[k + j]).0, spawns@[k + j].1) == hoards@[j].0
                && spawns@[k + j].2 == chest_kind(j, depth as int) by {
                if j < i {
                    assert(spawns@[k + j] == before[k + j]);
                }
            }
        }
        i = i + 1;
    }
    proof {
        let chests = spawns@.subrange(k, spawns@.len() as int);
        assert forall|j: int| 0 <= j < n implies ((#[trigger] chests[j]).0, chests[j].1) == hoards@[j].0
            && chests[j].2 == chest_kind(j, depth as int) by {
            assert(chests[j] == spawns@[k + j]);
        }
        assert(chests_placed(chests, hoards@, depth as int, caverns@.len() as int));
        assert forall|j: int| 0 <= j < k implies #[trigger] spawns@[j] == creatures[j] by {
            assert(spawns@.subrange(0, k)[j] == spawns@[j]);
        }
        assert(spawns@.take(k) =~= creatures.take(k));
        assert(creatures_drawn(all_lairs, theme, spawns@.take(k), idxs, rolls));
        let lw = level.width as int;
        let lairs_e = lairs_upto(*level, dist@, lw, lw * lw);
        assert(lairs_e == all_lairs);
        let budget_e = creature_budget(lairs_e.len() as int, depth as int);
        let k_e = if budget_e < lairs_e.len() { budget_e } else { lairs_e.len() as int };
        assert(k_e == k);
        assert(creatures_drawn(lairs_e, theme, spawns@.take(k_e), idxs, rolls));
        assert(creatures_from_draws(lairs_e, theme, spawns@.take(k_e)));
    }
    spawns
}

} // verus!
