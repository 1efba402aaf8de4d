//! Planet surfaces: biomes, dry ground, the landing pad and walkable regions.
use vstd::prelude::*;
use std::collections::VecDeque;
use crate::level::{grid_dims, lemma_paint_ext, lemma_paint_none, lemma_paint_set, paint, set_cells, Level, Tile};
use crate::locations::cave_gen::dir4;

verus! {

/// The broad look of a planet's surface.
#[derive(Clone, Copy, Debug, PartialEq, Eq, Structural)]
pub enum PlanetBiome {
    Grassland,
    Desert,
    Crystal,
    Alien,
    Arctic,
    Lava,
    Bright,
}

} // verus!

verus! {

/// Side of a planet surface, in tiles.
pub const PLANET_SIZE: usize = 300;
/// The magic that opens a palette-encoded editor grid.
pub open spec fn grid_magic() -> Seq<u8> {
    seq![0x50u8, 0x47u8, 0x52u8, 0x31u8]
}

/// Ground a ship can land on: any walkable tile.
pub fn is_solid_ground(tile: Tile) -> (b: bool)
    ensures
        b == tile.spec_walkable(),
{
    tile.walkable()
}

/// A little-endian 16-bit value.
pub open spec fn le16(lo: u8, hi: u8) -> u16 {
    (lo + 256 * hi) as u16
}

fn read_le16(lo: u8, hi: u8) -> (v: u16)
    ensures
        v == le16(lo, hi),
{
    lo as u16 + (hi as u16) * 256
}

/// A planet grid saved by the editor: two bytes per cell, either raw or through a palette of
/// distinct cells that one-byte indices pick from.
pub enum EditorPlanetGrid {
    Palette { palette: Vec<u8>, indices: Vec<u8> },
    Raw(Vec<u8>),
}

/// The bytes open with the palette magic.
pub open spec fn has_magic(bytes: Seq<u8>) -> bool {
    bytes.len() >= 4 && bytes.subrange(0, 4) == grid_magic()
}

/// Where the indices of a palette grid start: after the magic, the palette length and the
/// palette's two bytes per entry.
pub open spec fn indices_start(bytes: Seq<u8>) -> int {
    6 + le16(bytes[4], bytes[5]) * 2
}

/// A copy of `bytes[lo..hi]`.
fn copy_range(bytes: &[u8], lo: usize, hi: usize) -> (v: Vec<u8>)
    requires
        lo <= hi <= bytes@.len(),
    ensures
        v@ == bytes@.subrange(lo as int, hi as int),
{
    let mut v: Vec<u8> = Vec::new();
    let mut i = lo;
    while i < hi
        invariant
            lo <= i <= hi <= bytes@.len(),
            v@ == bytes@.subrange(lo as int, i as int),
        decreases hi - i,
    {
        v.push(bytes[i]);
        i = i + 1;
    }
    v
}

/// The bytes can be read as a grid: a palette grid's header and palette are all there.
pub open spec fn grid_readable(bytes: Seq<u8>) -> bool {
    has_magic(bytes) ==> bytes.len() >= 6 && indices_start(bytes) <= bytes.len()
}

/// `g` is the grid read from `bytes`: its palette and indices when they open with the magic,
/// the raw bytes otherwise.
pub open spec fn grid_read(bytes: Seq<u8>, g: EditorPlanetGrid) -> bool {
    &&& has_magic(bytes) ==> g is Palette && g->palette@ == bytes.subrange(6, indices_start(bytes)) && g->indices@ == bytes.subrange(indices_start(bytes), bytes.len() as int)
    &&& !has_magic(bytes) ==> g is Raw && g->Raw_0@ == bytes
}

impl EditorPlanetGrid {
    /// Reads a grid: palette-encoded when the bytes open with the magic, raw otherwise.
    pub fn new(bytes: &[u8]) -> (g: Self)
        requires
            grid_readable(bytes@),
        ensures
            grid_read(bytes@, g),
    {
        let magic = bytes.len() >= 4 && bytes[0] == 0x50 && bytes[1] == 0x47 && bytes[2] == 0x52 && bytes[3] == 0x31;
        assert(magic == has_magic(bytes@)) by {
            if bytes@.len() >= 4 {
                assert(magic ==> bytes@.subrange(0, 4) =~= grid_magic());
                assert(bytes@.subrange(0, 4) == grid_magic() ==> bytes@.subrange(0, 4)[0] == 0x50u8 && bytes@.subrange(0, 4)[1] == 0x47u8
                    && bytes@.subrange(0, 4)[2] == 0x52u8 && bytes@.subrange(0, 4)[3] == 0x31u8);
            }
        }
        if magic {
            let palette_len = read_le16(bytes[4], bytes[5]) as usize;
            let start = 6 + palette_len * 2;
            EditorPlanetGrid::Palette {
                palette: copy_range(bytes, 6, start),
                indices: copy_range(bytes, start, bytes.len()),
            }
        } else {
            let raw = copy_range(bytes, 0, bytes.len());
            assert(raw@ =~= bytes@);
            EditorPlanetGrid::Raw(raw)
        }
    }

    /// The cell reading at `index` can be taken without running off the data.
    pub open spec fn cell_ok(&self, index: int) -> bool {
        match self {
            EditorPlanetGrid::Palette { palette, indices } => 0 <= index < indices@.len() && indices@[index] * 2 + 1 < palette@.len(),
            EditorPlanetGrid::Raw(bytes) => 0 <= index && index * 2 + 1 < bytes@.len(),
        }
    }

    /// The encoded cell at `index`.
    pub open spec fn spec_cell(&self, index: int) -> u16 {
        match self {
            EditorPlanetGrid::Palette { palette, indices } => le16(palette@[indices@[index] * 2], palette@[indices@[index] * 2 + 1]),
            EditorPlanetGrid::Raw(bytes) => le16(bytes@[index * 2], bytes@[index * 2 + 1]),
        }
    }

    /// The encoded cell at `index`: looked up through the palette, or read raw.
    pub fn cell(&self, index: usize) -> (c: u16)
        requires
            self.cell_ok(index as int),
        ensures
            c == self.spec_cell(index as int),
    {
        match self {
            EditorPlanetGrid::Palette { palette, indices } => {
                let pi = indices[index] as usize;
                let bi = pi * 2;
                read_le16(palette[bi], palette[bi + 1])
            },
            EditorPlanetGrid::Raw(bytes) => {
                // The length fits a `usize`, which bounds the index below.
                let _n = bytes.len();
                let bi = index * 2;
                read_le16(bytes[bi], bytes[bi + 1])
            },
        }
    }
}

/// The neighbour of `c` in direction `k`.
pub open spec fn nbr4(c: (int, int), k: int) -> (int, int) {
    (c.0 + dir4(k).0, c.1 + dir4(k).1)
}

pub open spec fn walk(level: Level, c: (int, int)) -> bool {
    level.spec_walkable(c.0, c.1)
}

/// `lab` labels a whole 4-connected component of walkable tiles: the root at 0, every other tile
/// one more than a neighbour's label (so a path leads back to the root), and every walkable
/// neighbour of a labelled tile labelled too.
pub open spec fn component_ok(level: Level, lab: Map<(int, int), nat>, root: (int, int)) -> bool {
    &&& lab.dom().finite()
    &&& lab.dom().contains(root)
    &&& lab[root] == 0
    &&& forall|c: (int, int)| #[trigger] lab.dom().contains(c) ==> walk(level, c)
    &&& forall|c: (int, int)| #[trigger] lab.dom().contains(c) && c != root ==> lab[c] > 0
        && exists|k: int| 0 <= k < 4 && lab.dom().contains(#[trigger] nbr4(c, k)) && lab[nbr4(c, k)] == lab[c] - 1
    &&& forall|c: (int, int), k: int| lab.dom().contains(c) && 0 <= k < 4 && walk(level, #[trigger] nbr4(c, k))
        ==> lab.dom().contains(nbr4(c, k))
}

/// The tiles a list of positions names.
pub open spec fn cells_of(v: Seq<(i32, i32)>) -> Set<(int, int)> {
    Set::new(|c: (int, int)| exists|i: int| 0 <= i < v.len() && #[trigger] v[i] == (c.0 as i32, c.1 as i32) && in_i32(c))
}

pub open spec fn in_i32(c: (int, int)) -> bool {
    i32::MIN <= c.0 <= i32::MAX && i32::MIN <= c.1 <= i32::MAX
}

/// `c` lies in a component of at most `bound` tiles.
pub open spec fn in_component_within(level: Level, c: (int, int), bound: int) -> bool {
    exists|lab: Map<(int, int), nat>, root: (int, int)| #[trigger] component_ok(level, lab, root) && lab.dom().contains(c) && lab.dom().len() <= bound
}

pub open spec fn visited_at(visited: Seq<Vec<bool>>, c: (int, int)) -> bool {
    0 <= c.1 < visited.len() && 0 <= c.0 < visited[c.1]@.len() && visited[c.1]@[c.0]
}

/// The visited tiles are walkable and hold every walkable neighbour of theirs.
pub open spec fn visited_closed(level: Level, visited: Seq<Vec<bool>>) -> bool {
    &&& forall|c: (int, int)| #[trigger] visited_at(visited, c) ==> walk(level, c)
    &&& forall|c: (int, int), k: int| visited_at(visited, c) && 0 <= k < 4 && walk(level, #[trigger] nbr4(c, k))
        ==> visited_at(visited, nbr4(c, k))
}

pub open spec fn grid_shape(visited: Seq<Vec<bool>>, w: int, h: int) -> bool {
    visited.len() == h && forall|y: int| 0 <= y < h ==> #[trigger] visited[y]@.len() == w
}

pub proof fn lemma_rect_index(w: int, h: int, x: int, y: int)
    requires
        0 <= x < w,
        0 <= y < h,
    ensures
        0 <= y * w + x < w * h,
{
    assert(0 <= y * w <= (h - 1) * w) by (nonlinear_arith)
        requires
            0 <= y <= h - 1,
            0 <= w,
    ;
    assert((h - 1) * w + w == w * h) by (nonlinear_arith);
}

pub proof fn lemma_rect_index_inj(w: int, x: int, y: int, u: int, v: int)
    requires
        0 <= x < w,
        0 <= u < w,
        y * w + x == v * w + u,
    ensures
        x == u && y == v,
{
    assert(y == v) by (nonlinear_arith)
        requires
            0 <= x < w,
            0 <= u < w,
            y * w + x == v * w + u,
    ;
}

/// Every labelled tile but the root has a neighbour labelled one less, down to the root at 0.
pub open spec fn parents_ok(lab: Map<(int, int), nat>, root: (int, int)) -> bool {
    &&& lab.dom().contains(root)
    &&& lab[root] == 0
    &&& forall|c: (int, int)| #[trigger] lab.dom().contains(c) && c != root ==> lab[c] > 0
        && exists|k: int| 0 <= k < 4 && lab.dom().contains(#[trigger] nbr4(c, k)) && lab[nbr4(c, k)] == lab[c] - 1
}

/// `order` lists the labelled tiles, each once.
pub open spec fn order_lists(lab: Map<(int, int), nat>, order: Seq<(i32, i32)>) -> bool {
    &&& lab.dom().finite()
    &&& forall|i: int| 0 <= i < order.len() ==> lab.dom().contains(((#[trigger] order[i]).0 as int, order[i].1 as int))
    &&& forall|c: (int, int)| #[trigger] lab.dom().contains(c) ==> exists|i: int| 0 <= i < order.len() && #[trigger] order[i] == (c.0 as i32, c.1 as i32)
    &&& forall|i: int, j: int| 0 <= i < j < order.len() ==> order[i] != order[j]
    &&& lab.dom().len() == order.len()
}

/// The first `done` tiles of `order` have every walkable neighbour labelled.
pub open spec fn done_closed(level: Level, lab: Map<(int, int), nat>, order: Seq<(i32, i32)>, done: int) -> bool {
    &&& 0 <= done <= order.len()
    &&& forall|i: int, k: int| 0 <= i < done && 0 <= k < 4 && walk(level, #[trigger] nbr4((order[i].0 as int, order[i].1 as int), k))
        ==> lab.dom().contains(nbr4((order[i].0 as int, order[i].1 as int), k))
}

/// The tiles a flood from `root` has reached: `lab` labels them, the root at 0 and every other
/// one more than a neighbour's label; `order` lists them once each in the order they were found;
/// the first `done` of them have every walkable neighbour reached.
pub closed spec fn flood_lab(level: Level, lab: Map<(int, int), nat>, order: Seq<(i32, i32)>, done: int, root: (int, int)) -> bool {
    &&& forall|c: (int, int)| #[trigger] lab.dom().contains(c) ==> 0 <= c.0 < level.width && 0 <= c.1 < level.height && walk(level, c)
    &&& parents_ok(lab, root)
    &&& order_lists(lab, order)
    &&& done_closed(level, lab, order, done)
}

/// The marks during a flood: those set before it began (a closed set of walkable tiles) and the
/// tiles it reached, which were not marked before.
pub closed spec fn flood_marks(level: Level, old_v: Seq<Vec<bool>>, visited: Seq<Vec<bool>>, lab: Map<(int, int), nat>) -> bool {
    &&& grid_shape(visited, level.width as int, level.height as int)
    &&& grid_shape(old_v, level.width as int, level.height as int)
    &&& visited_closed(level, old_v)
    &&& forall|c: (int, int)| #[trigger] visited_at(visited, c) == (visited_at(old_v, c) || lab.dom().contains(c))
    &&& forall|c: (int, int)| #[trigger] lab.dom().contains(c) ==> !visited_at(old_v, c)
}

/// The basic facts of a flood in progress.
proof fn lemma_flood_basic(level: Level, lab: Map<(int, int), nat>, order: Seq<(i32, i32)>, done: int, root: (int, int))
    requires
        flood_lab(level, lab, order, done, root),
    ensures
        0 <= done <= order.len(),
        order.len() <= level.width * level.height,
        lab.dom().contains(root),
        lab.dom().finite(),
        forall|i: int| 0 <= i < order.len() ==> 0 <= (#[trigger] order[i]).0 < level.width && 0 <= order[i].1 < level.height,
        forall|i: int| 0 <= i < order.len() ==> lab.dom().contains(((#[trigger] order[i]).0 as int, order[i].1 as int)),
        forall|c: (int, int)| #[trigger] lab.dom().contains(c) ==> walk(level, c),
{
    reveal(flood_lab);
    let w = level.width as int;
    let h = level.height as int;
    lemma_rect_bound(w, h, lab.dom());
    assert forall|i: int| 0 <= i < order.len() implies 0 <= (#[trigger] order[i]).0 < level.width && 0 <= order[i].1 < level.height by {
        assert(lab.dom().contains((order[i].0 as int, order[i].1 as int)));
    }
}

pub proof fn lemma_parents_insert(lab: Map<(int, int), nat>, root: (int, int), cur: (int, int), k: int)
    requires
        parents_ok(lab, root),
        lab.dom().contains(cur),
        0 <= k < 4,
        !lab.dom().contains(nbr4(cur, k)),
    ensures
        parents_ok(lab.insert(nbr4(cur, k), lab[cur] + 1), root),
{
    let n = nbr4(cur, k);
    let lab2 = lab.insert(n, lab[cur] + 1);
    assert forall|c: (int, int)| #[trigger] lab2.dom().contains(c) && c != root implies lab2[c] > 0
        && exists|j: int| 0 <= j < 4 && lab2.dom().contains(#[trigger] nbr4(c, j)) && lab2[nbr4(c, j)] == lab2[c] - 1 by {
        if c == n {
            let back: int = if k == 0 { 1 } else if k == 1 { 0 } else if k == 2 { 3 } else { 2 };
            assert(nbr4(c, back) == cur);
        } else {
            let j = choose|j: int| 0 <= j < 4 && lab.dom().contains(#[trigger] nbr4(c, j)) && lab[nbr4(c, j)] == lab[c] - 1;
            assert(nbr4(c, j) != n);
            assert(lab2[nbr4(c, j)] == lab[nbr4(c, j)]);
        }
    }
}

proof fn lemma_order_push(lab: Map<(int, int), nat>, order: Seq<(i32, i32)>, n: (int, int), v: nat)
    requires
        order_lists(lab, order),
        !lab.dom().contains(n),
        in_i32(n),
    ensures
        order_lists(lab.insert(n, v), order.push((n.0 as i32, n.1 as i32))),
{
    let lab2 = lab.insert(n, v);
    let order2 = order.push((n.0 as i32, n.1 as i32));
    assert forall|i: int| 0 <= i < order2.len() implies lab2.dom().contains(((#[trigger] order2[i]).0 as int, order2[i].1 as int)) by {
        if i < order.len() {
            assert(order2[i] == order[i]);
        }
    }
    assert forall|c: (int, int)| #[trigger] lab2.dom().contains(c) implies exists|i: int| 0 <= i < order2.len() && #[trigger] order2[i] == (c.0 as i32, c.1 as i32) by {
        if c == n {
            assert(order2[order.len() as int] == (c.0 as i32, c.1 as i32));
        } else {
            let i = choose|i: int| 0 <= i < order.len() && #[trigger] order[i] == (c.0 as i32, c.1 as i32);
            assert(order2[i] == order[i]);
        }
    }
    assert forall|i: int, j: int| 0 <= i < j < order2.len() implies order2[i] != order2[j] by {
        if j == order.len() {
            assert(lab.dom().contains((order[i].0 as int, order[i].1 as int)));
            assert(order2[i] == order[i]);
        } else {
            assert(order2[i] == order[i] && order2[j] == order[j]);
        }
    }
}

proof fn lemma_done_grow(level: Level, lab: Map<(int, int), nat>, order: Seq<(i32, i32)>, done: int, n: (int, int), v: nat, t: (i32, i32))
    requires
        done_closed(level, lab, order, done),
    ensures
        done_closed(level, lab.insert(n, v), order.push(t), done),
{
    let order2 = order.push(t);
    assert forall|i: int, q: int| 0 <= i < done && 0 <= q < 4 && walk(level, #[trigger] nbr4((order2[i].0 as int, order2[i].1 as int), q))
        implies lab.insert(n, v).dom().contains(nbr4((order2[i].0 as int, order2[i].1 as int), q)) by {
        assert(order2[i] == order[i]);
    }
}

/// Labelling the unreached walkable neighbour `n` of a reached tile keeps the flood's labels valid.
proof fn lemma_lab_visit(level: Level, lab: Map<(int, int), nat>, order: Seq<(i32, i32)>, done: int, root: (int, int),
    cur: (int, int), k: int)
    requires
        flood_lab(level, lab, order, done, root),
        lab.dom().contains(cur),
        0 <= k < 4,
        0 <= nbr4(cur, k).0 < level.width,
        0 <= nbr4(cur, k).1 < level.height,
        walk(level, nbr4(cur, k)),
        !lab.dom().contains(nbr4(cur, k)),
        level.width <= i32::MAX,
        level.height <= i32::MAX,
    ensures
        flood_lab(level, lab.insert(nbr4(cur, k), lab[cur] + 1), order.push((nbr4(cur, k).0 as i32, nbr4(cur, k).1 as i32)), done, root),
{
    reveal(flood_lab);
    let n = nbr4(cur, k);
    let lab2 = lab.insert(n, lab[cur] + 1);
    lemma_parents_insert(lab, root, cur, k);
    lemma_order_push(lab, order, n, lab[cur] + 1);
    lemma_done_grow(level, lab, order, done, n, lab[cur] + 1, (n.0 as i32, n.1 as i32));
    assert forall|c: (int, int)| #[trigger] lab2.dom().contains(c) implies 0 <= c.0 < level.width && 0 <= c.1 < level.height && walk(level, c) by {}
}

/// Marking the newly reached tile `n` keeps the marks in step with the labels.
proof fn lemma_marks_visit(level: Level, old_v: Seq<Vec<bool>>, visited: Seq<Vec<bool>>, lab: Map<(int, int), nat>,
    n: (int, int), v: nat, visited2: Seq<Vec<bool>>)
    requires
        flood_marks(level, old_v, visited, lab),
        !visited_at(visited, n),
        grid_shape(visited2, level.width as int, level.height as int),
        forall|c: (int, int)| #[trigger] visited_at(visited2, c) == (visited_at(visited, c) || c == n),
    ensures
        flood_marks(level, old_v, visited2, lab.insert(n, v)),
        !lab.dom().contains(n),
{
    reveal(flood_marks);
    assert(!lab.dom().contains(n));
    let lab2 = lab.insert(n, v);
    assert forall|c: (int, int)| #[trigger] visited_at(visited2, c) == (visited_at(old_v, c) || lab2.dom().contains(c)) by {}
    assert forall|c: (int, int)| #[trigger] lab2.dom().contains(c) implies !visited_at(old_v, c) by {
        if c == n {
            assert(!visited_at(visited, n));
        }
    }
}

/// A finite set of tiles inside a `w` by `h` rectangle has at most `w * h` of them.
pub proof fn lemma_rect_bound(w: int, h: int, s: Set<(int, int)>)
    requires
        0 < w,
        0 <= h,
        forall|c: (int, int)| #[trigger] s.contains(c) ==> 0 <= c.0 < w && 0 <= c.1 < h,
    ensures
        s.finite(),
        s.len() <= w * h,
{
    let f = |i: int| (i % w, i / w);
    let r = vstd::set_lib::set_int_range(0, w * h);
    vstd::set_lib::lemma_int_range(0, w * h);
    let img = r.map(f);
    vstd::set_lib::lemma_map_size_bound(r, img, f);
    assert forall|c: (int, int)| #[trigger] s.contains(c) implies img.contains(c) by {
        let i = c.1 * w + c.0;
        lemma_rect_index(w, h, c.0, c.1);
        assert(i % w == c.0 && i / w == c.1) by (nonlinear_arith)
            requires
                i == c.1 * w + c.0,
                0 <= c.0 < w,
                0 <= c.1,
        {
            vstd::arithmetic::div_mod::lemma_fundamental_div_mod_converse(i, w, c.1, c.0);
        }
        assert(r.contains(i));
        assert(f(i) == c);
    }
    vstd::set_lib::lemma_len_subset(s, img);
}


/// Marks the tile `(x, y)` visited.
pub(crate) fn mark(visited: &mut Vec<Vec<bool>>, x: usize, y: usize, Ghost(w): Ghost<int>, Ghost(h): Ghost<int>)
    requires
        grid_shape(old(visited)@, w, h),
        x < w,
        y < h,
    ensures
        grid_shape(final(visited)@, w, h),
        forall|c: (int, int)| #[trigger] visited_at(final(visited)@, c) == (visited_at(old(visited)@, c) || c == (x as int, y as int)),
{
    let ghost before = visited@;
    visited[y][x] = true;
    assert forall|c: (int, int)| #[trigger] visited_at(visited@, c) == (visited_at(before, c) || c == (x as int, y as int)) by {
        if c.1 == y as int {
            assert(visited@[c.1]@ == before[c.1]@.update(x as int, true));
        } else if 0 <= c.1 < before.len() {
            assert(visited@[c.1] == before[c.1]);
        }
    }
}

/// A flood that has only reached its start tile.
proof fn lemma_flood_start(level: Level, old_v: Seq<Vec<bool>>, visited: Seq<Vec<bool>>, root: (int, int))
    requires
        grid_shape(old_v, level.width as int, level.height as int),
        grid_shape(visited, level.width as int, level.height as int),
        visited_closed(level, old_v),
        0 <= root.0 < level.width,
        0 <= root.1 < level.height,
        level.width <= i32::MAX,
        level.height <= i32::MAX,
        walk(level, root),
        !visited_at(old_v, root),
        forall|c: (int, int)| #[trigger] visited_at(visited, c) == (visited_at(old_v, c) || c == root),
    ensures
        flood_lab(level, map![root => 0nat], seq![(root.0 as i32, root.1 as i32)], 0, root),
        flood_marks(level, old_v, visited, map![root => 0nat]),
{
    reveal(flood_lab);
    reveal(flood_marks);
    let lab = map![root => 0nat];
    let order = seq![(root.0 as i32, root.1 as i32)];
    assert(lab.dom() =~= set![root]);
    assert(lab.dom().len() == 1);
    assert forall|c: (int, int)| #[trigger] lab.dom().contains(c) implies exists|i: int| 0 <= i < order.len() && #[trigger] order[i] == (c.0 as i32, c.1 as i32) by {
        assert(order[0] == (c.0 as i32, c.1 as i32));
    }
}

/// A neighbour that is already marked is, if walkable, reached by this flood: marks set before
/// it began are closed, so cannot touch a tile it reached.
proof fn lemma_marked_nbr(level: Level, old_v: Seq<Vec<bool>>, visited: Seq<Vec<bool>>, lab: Map<(int, int), nat>,
    cur: (int, int), k: int)
    requires
        flood_marks(level, old_v, visited, lab),
        lab.dom().contains(cur),
        walk(level, cur),
        0 <= k < 4,
        visited_at(visited, nbr4(cur, k)),
    ensures
        walk(level, nbr4(cur, k)) ==> lab.dom().contains(nbr4(cur, k)),
{
    reveal(flood_marks);
    let n = nbr4(cur, k);
    if visited_at(old_v, n) && walk(level, n) {
        let back: int = if k == 0 { 1 } else if k == 1 { 0 } else if k == 2 { 3 } else { 2 };
        assert(nbr4(n, back) == cur);
        assert(visited_at(old_v, cur));
    }
}

/// The tile at `done` has all its walkable neighbours reached, so the first `done + 1` tiles are done.
proof fn lemma_done_step(level: Level, lab: Map<(int, int), nat>, order: Seq<(i32, i32)>, done: int, root: (int, int))
    requires
        flood_lab(level, lab, order, done, root),
        done < order.len(),
        forall|q: int| 0 <= q < 4 && walk(level, #[trigger] nbr4((order[done].0 as int, order[done].1 as int), q))
            ==> lab.dom().contains(nbr4((order[done].0 as int, order[done].1 as int), q)),
    ensures
        flood_lab(level, lab, order, done + 1, root),
{
    reveal(flood_lab);
    lemma_done_closed_step(level, lab, order, done);
}

proof fn lemma_done_closed_step(level: Level, lab: Map<(int, int), nat>, order: Seq<(i32, i32)>, done: int)
    requires
        done_closed(level, lab, order, done),
        done < order.len(),
        forall|q: int| 0 <= q < 4 && walk(level, #[trigger] nbr4((order[done].0 as int, order[done].1 as int), q))
            ==> lab.dom().contains(nbr4((order[done].0 as int, order[done].1 as int), q)),
    ensures
        done_closed(level, lab, order, done + 1),
{
    assert forall|i: int, k: int| 0 <= i < done + 1 && 0 <= k < 4 && walk(level, #[trigger] nbr4((order[i].0 as int, order[i].1 as int), k))
        implies lab.dom().contains(nbr4((order[i].0 as int, order[i].1 as int), k)) by {
        if i == done {
        }
    }
}

/// A flood with nothing left to expand has labelled a whole component, and the marks are closed.
proof fn lemma_flood_finish(level: Level, old_v: Seq<Vec<bool>>, visited: Seq<Vec<bool>>, lab: Map<(int, int), nat>,
    order: Seq<(i32, i32)>, root: (int, int))
    requires
        flood_lab(level, lab, order, order.len() as int, root),
        flood_marks(level, old_v, visited, lab),
        level.width <= i32::MAX,
        level.height <= i32::MAX,
    ensures
        component_ok(level, lab, root),
        cells_of(order) == lab.dom(),
        order.len() == lab.dom().len(),
        forall|c: (int, int)| #[trigger] visited_at(visited, c) == (visited_at(old_v, c) || lab.dom().contains(c)),
        forall|c: (int, int)| #[trigger] lab.dom().contains(c) ==> !visited_at(old_v, c),
        grid_shape(visited, level.width as int, level.height as int),
        visited_closed(level, visited),
{
    reveal(flood_lab);
    reveal(flood_marks);
    assert forall|c: (int, int), k: int| lab.dom().contains(c) && 0 <= k < 4 && walk(level, #[trigger] nbr4(c, k))
        implies lab.dom().contains(nbr4(c, k)) by {
        let i = choose|i: int| 0 <= i < order.len() && #[trigger] order[i] == (c.0 as i32, c.1 as i32);
        assert((order[i].0 as int, order[i].1 as int) == c);
    }
    assert forall|c: (int, int)| cells_of(order).contains(c) <==> lab.dom().contains(c) by {
        if lab.dom().contains(c) {
            let i = choose|i: int| 0 <= i < order.len() && #[trigger] order[i] == (c.0 as i32, c.1 as i32);
            assert(in_i32(c));
        }
        if cells_of(order).contains(c) {
            let i = choose|i: int| 0 <= i < order.len() && #[trigger] order[i] == (c.0 as i32, c.1 as i32) && in_i32(c);
            assert(lab.dom().contains((order[i].0 as int, order[i].1 as int)));
        }
    }
    assert(cells_of(order) =~= lab.dom());
    assert forall|c: (int, int), k: int| visited_at(visited, c) && 0 <= k < 4 && walk(level, #[trigger] nbr4(c, k))
        implies visited_at(visited, nbr4(c, k)) by {
        if visited_at(old_v, c) {
            assert(visited_at(old_v, nbr4(c, k)));
        } else {
            assert(lab.dom().contains(nbr4(c, k)));
        }
    }
}

/// Floods the unmarked walkable tile `(sx, sy)`'s 4-connected component breadth first, marking
/// every tile of it; returns its tiles in the order they were taken off the queue.
#[verifier::spinoff_prover]
fn flood(level: &Level, visited: &mut Vec<Vec<bool>>, sx: i32, sy: i32) -> (r: (Vec<(i32, i32)>, Ghost<Map<(int, int), nat>>))
    requires
        level.wf(),
        level.width <= i32::MAX,
        level.height <= i32::MAX,
        grid_shape(old(visited)@, level.width as int, level.height as int),
        visited_closed(*level, old(visited)@),
        walk(*level, (sx as int, sy as int)),
        !visited_at(old(visited)@, (sx as int, sy as int)),
    ensures
        component_ok(*level, r.1@, (sx as int, sy as int)),
        cells_of(r.0@) == r.1@.dom(),
        r.0@.len() == r.1@.dom().len(),
        forall|c: (int, int)| #[trigger] visited_at(final(visited)@, c) == (visited_at(old(visited)@, c) || r.1@.dom().contains(c)),
        forall|c: (int, int)| #[trigger] r.1@.dom().contains(c) ==> !visited_at(old(visited)@, c),
        grid_shape(final(visited)@, level.width as int, level.height as int),
        visited_closed(*level, final(visited)@),
{
    let ghost old_v = visited@;
    let ghost root = (sx as int, sy as int);
    let ghost wi = level.width as int;
    let ghost hi = level.height as int;
    let w = level.width as i32;
    let h = level.height as i32;
    let mut component: Vec<(i32, i32)> = Vec::new();
    let mut queue: VecDeque<(i32, i32)> = VecDeque::new();
    mark(visited, sx as usize, sy as usize, Ghost(wi), Ghost(hi));
    queue.push_back((sx, sy));
    let ghost mut lab: Map<(int, int), nat> = map![root => 0nat];
    proof {
        lemma_flood_start(*level, old_v, visited@, root);
        assert(component@ + queue@ =~= seq![(sx, sy)]);
    }
    while queue.len() > 0
        invariant
            level.wf(),
            level.width <= i32::MAX,
            level.height <= i32::MAX,
            w == level.width,
            h == level.height,
            wi == level.width,
            hi == level.height,
            grid_shape(visited@, wi, hi),
            flood_lab(*level, lab, component@ + queue@, component@.len() as int, root),
            flood_marks(*level, old_v, visited@, lab),
        decreases 2 * (wi * hi) - (component@ + queue@).len() - component@.len(),
    {
        let ghost order0 = component@ + queue@;
        proof { lemma_flood_basic(*level, lab, order0, component@.len() as int, root); }
        let (x, y) = queue.pop_front().unwrap();
        let ghost done = component@.len() as int;
        component.push((x, y));
        assert(component@ + queue@ =~= order0);
        assert(order0[done] == (x, y));
        let ghost cur = (x as int, y as int);
        assert(lab.dom().contains(cur));
        let dirs: [(i32, i32); 4] = [(1, 0), (-1, 0), (0, 1), (0, -1)];
        let mut k: usize = 0;
        while k < 4
            invariant
                level.wf(),
                level.width <= i32::MAX,
                level.height <= i32::MAX,
                w == level.width,
                h == level.height,
                wi == level.width,
                hi == level.height,
                grid_shape(visited@, wi, hi),
                flood_lab(*level, lab, component@ + queue@, done, root),
                flood_marks(*level, old_v, visited@, lab),
                component@.len() == done + 1,
                component@[done] == (x, y),
                cur == (x as int, y as int),
                lab.dom().contains(cur),
                0 <= x < w,
                0 <= y < h,
                (component@ + queue@).len() >= order0.len(),
                dirs@ == seq![(1i32, 0i32), (-1i32, 0i32), (0i32, 1i32), (0i32, -1i32)],
                k <= 4,
                forall|q: int| 0 <= q < k && walk(*level, #[trigger] nbr4(cur, q)) ==> lab.dom().contains(nbr4(cur, q)),
            decreases 4 - k,
        {
            let (dx, dy) = dirs[k];
            assert((dx as int, dy as int) == dir4(k as int));
            let nx = x + dx;
            let ny = y + dy;
            let ghost n = nbr4(cur, k as int);
            assert(n == (nx as int, ny as int));
            proof { lemma_flood_basic(*level, lab, component@ + queue@, done, root); }
            if nx >= 0 && ny >= 0 && nx < w && ny < h && !visited[ny as usize][nx as usize] && level.walkable(nx, ny) {
                let ghost vb = visited@;
                let ghost ob = component@ + queue@;
                mark(visited, nx as usize, ny as usize, Ghost(wi), Ghost(hi));
                queue.push_back((nx, ny));
                proof {
                    lemma_marks_visit(*level, old_v, vb, lab, n, lab[cur] + 1, visited@);
                    lemma_lab_visit(*level, lab, ob, done, root, cur, k as int);
                    lab = lab.insert(n, (lab[cur] + 1) as nat);
                    assert(component@ + queue@ =~= ob.push((nx, ny)));
                }
            } else {
                proof {
                    if nx >= 0 && ny >= 0 && nx < w && ny < h && visited[ny as int]@[nx as int] {
                        lemma_marked_nbr(*level, old_v, visited@, lab, cur, k as int);
                    }
                }
            }
            k = k + 1;
        }
        proof {
            lemma_done_step(*level, lab, component@ + queue@, done, root);
            lemma_flood_basic(*level, lab, component@ + queue@, done + 1, root);
        }
    }
    proof {
        assert(component@ + queue@ =~= component@);
        lemma_flood_finish(*level, old_v, visited@, lab, component@, root);
    }
    (component, Ghost(lab))
}


/// `lab` labels a largest walkable component: every walkable tile lies in one no larger.
#[verifier::opaque]
pub open spec fn largest_component(level: Level, lab: Map<(int, int), nat>, root: (int, int)) -> bool {
    &&& component_ok(level, lab, root)
    &&& forall|c: (int, int)| #[trigger] walk(level, c) ==> in_component_within(level, c, lab.dom().len() as int)
}

/// `a` comes before `b` scanning rows from the top, each from the left.
pub open spec fn row_before(a: (int, int), b: (int, int)) -> bool {
    a.1 < b.1 || (a.1 == b.1 && a.0 < b.0)
}

/// Every walkable tile before `root` in row order lies in a component of fewer than `n` tiles: of
/// the components of `n` tiles, the one at `root` is found first.
pub open spec fn first_of_size(level: Level, n: int, root: (int, int)) -> bool {
    forall|c: (int, int)| #[trigger] walk(level, c) && row_before(c, root) ==> in_component_within(level, c, n - 1)
}

/// `v` lists the tiles of a largest walkable component, each once: among components of that
/// size, the first one found scanning rows from the top.
pub open spec fn lists_largest(level: Level, v: Seq<(i32, i32)>) -> bool {
    exists|lab: Map<(int, int), nat>, root: (int, int)| #[trigger] largest_component(level, lab, root)
        && cells_of(v) == lab.dom() && v.len() == lab.dom().len() && first_of_size(level, v.len() as int, root)
}

/// Some tile of the level is walkable.
pub open spec fn has_walkable(level: Level) -> bool {
    exists|c: (int, int)| #[trigger] walk(level, c)
}

/// Every walkable tile before `(sx, sy)` in row-major order is marked.
pub open spec fn scanned_upto(level: Level, visited: Seq<Vec<bool>>, sx: int, sy: int) -> bool {
    forall|c: (int, int)| 0 <= c.0 < level.width && 0 <= c.1 < level.height && (c.1 < sy || (c.1 == sy && c.0 < sx))
        && #[trigger] walk(level, c) ==> visited_at(visited, c)
}

/// The largest walkable component with its labels, found by flooding each unmarked walkable
/// tile in row-major order and keeping the first largest.
#[verifier::spinoff_prover]
pub(crate) fn largest_labelled(level: &Level) -> (r: (Vec<(i32, i32)>, Ghost<Map<(int, int), nat>>, Ghost<(int, int)>))
    requires
        level.wf(),
        level.width <= i32::MAX,
        level.height <= i32::MAX,
    ensures
        has_walkable(*level) ==> largest_component(*level, r.1@, r.2@) && cells_of(r.0@) == r.1@.dom()
            && r.0@.len() == r.1@.dom().len() && first_of_size(*level, r.0@.len() as int, r.2@),
        !has_walkable(*level) ==> r.0@.len() == 0,
{
    let w = level.width as i32;
    let h = level.height as i32;
    let ghost wi = level.width as int;
    let ghost hi = level.height as int;
    let mut visited = crate::map::bool_rows(level.width, level.height, false);
    let mut best: Vec<(i32, i32)> = Vec::new();
    let ghost mut blab: Map<(int, int), nat> = Map::empty();
    let ghost mut broot: (int, int) = (0, 0);
    let mut sy: i32 = 0;
    while sy < h
        invariant
            level.wf(),
            level.width <= i32::MAX,
            level.height <= i32::MAX,
            w == level.width,
            h == level.height,
            wi == level.width,
            hi == level.height,
            0 <= sy <= h,
            grid_shape(visited@, wi, hi),
            visited_closed(*level, visited@),
            scanned_upto(*level, visited@, 0, sy as int),
            forall|c: (int, int)| #[trigger] visited_at(visited@, c) ==> in_component_within(*level, c, best@.len() as int),
            best@.len() > 0 ==> component_ok(*level, blab, broot) && cells_of(best@) == blab.dom() && best@.len() == blab.dom().len(),
            best@.len() > 0 ==> first_of_size(*level, best@.len() as int, broot),
        decreases h - sy,
    {
        let mut sx: i32 = 0;
        while sx < w
            invariant
                level.wf(),
                level.width <= i32::MAX,
                level.height <= i32::MAX,
                w == level.width,
                h == level.height,
                wi == level.width,
                hi == level.height,
                0 <= sy < h,
                0 <= sx <= w,
                grid_shape(visited@, wi, hi),
                visited_closed(*level, visited@),
                scanned_upto(*level, visited@, sx as int, sy as int),
                forall|c: (int, int)| #[trigger] visited_at(visited@, c) ==> in_component_within(*level, c, best@.len() as int),
                best@.len() > 0 ==> component_ok(*level, blab, broot) && cells_of(best@) == blab.dom() && best@.len() == blab.dom().len(),
                best@.len() > 0 ==> first_of_size(*level, best@.len() as int, broot),
            decreases w - sx,
        {
            if !visited[sy as usize][sx as usize] && level.walkable(sx, sy) {
                let ghost vb = visited@;
                let ghost old_len = best@.len() as int;
                let (component, Ghost(lab)) = flood(level, &mut visited, sx, sy);
                let ghost root = (sx as int, sy as int);
                assert forall|c: (int, int)| #[trigger] lab.dom().contains(c) implies in_component_within(*level, c, component@.len() as int) by {
                    assert(component_ok(*level, lab, root));
                }
                if component.len() > best.len() {
                    assert forall|c: (int, int)| #[trigger] walk(*level, c) && row_before(c, root)
                        implies in_component_within(*level, c, component@.len() - 1) by {
                        assert(visited_at(vb, c));
                        assert(in_component_within(*level, c, old_len));
                        let (l2, r2) = choose|l2: Map<(int, int), nat>, r2: (int, int)| #[trigger] component_ok(*level, l2, r2)
                            && l2.dom().contains(c) && l2.dom().len() <= old_len;
                        assert(component_ok(*level, l2, r2));
                    }
                    assert forall|c: (int, int)| #[trigger] visited_at(visited@, c) implies in_component_within(*level, c, component@.len() as int) by {
                        if visited_at(vb, c) {
                            assert(in_component_within(*level, c, old_len));
                            let (l2, r2) = choose|l2: Map<(int, int), nat>, r2: (int, int)| #[trigger] component_ok(*level, l2, r2)
                                && l2.dom().contains(c) && l2.dom().len() <= old_len;
                            assert(component_ok(*level, l2, r2));
                        }
                    }
                    best = component;
                    proof {
                        blab = lab;
                        broot = root;
                    }
                } else {
                    assert forall|c: (int, int)| #[trigger] visited_at(visited@, c) implies in_component_within(*level, c, best@.len() as int) by {
                        if !visited_at(vb, c) {
                            assert(in_component_within(*level, c, component@.len() as int));
                            let (l2, r2) = choose|l2: Map<(int, int), nat>, r2: (int, int)| #[trigger] component_ok(*level, l2, r2)
                                && l2.dom().contains(c) && l2.dom().len() <= component@.len();
                            assert(component_ok(*level, l2, r2));
                        }
                    }
                }
            }
            sx = sx + 1;
        }
        sy = sy + 1;
    }
    proof {
        reveal(largest_component);
        if has_walkable(*level) {
            let c = choose|c: (int, int)| #[trigger] walk(*level, c);
            assert(visited_at(visited@, c));
            let (l2, r2) = choose|l2: Map<(int, int), nat>, r2: (int, int)| #[trigger] component_ok(*level, l2, r2)
                && l2.dom().contains(c) && l2.dom().len() <= best@.len();
            vstd::set_lib::lemma_set_empty_equivalency_len(l2.dom());
            assert forall|c2: (int, int)| #[trigger] walk(*level, c2) implies in_component_within(*level, c2, blab.dom().len() as int) by {
                assert(visited_at(visited@, c2));
            }
        } else if best@.len() > 0 {
            assert(walk(*level, broot));
        }
    }
    (best, Ghost(blab), Ghost(broot))
}

/// The tiles of the largest 4-connected walkable region (the first found, scanning rows from the
/// top, among equals), in breadth-first order from its first tile; empty when nothing is walkable.
pub fn largest_walkable_component(level: &Level) -> (best: Vec<(i32, i32)>)
    requires
        level.wf(),
        level.width <= i32::MAX,
        level.height <= i32::MAX,
    ensures
        has_walkable(*level) ==> lists_largest(*level, best@),
        !has_walkable(*level) ==> best@.len() == 0,
{
    let (best, Ghost(lab), Ghost(root)) = largest_labelled(level);
    proof {
        if has_walkable(*level) {
            assert(largest_component(*level, lab, root));
        }
    }
    best
}


pub open spec fn iabs(v: int) -> int {
    if v < 0 { -v } else { v }
}

/// Steps from `c` to the centre of the level, moving along rows and columns.
pub open spec fn center_distance(level: Level, c: (int, int)) -> int {
    iabs(c.0 - level.width as int / 2) + iabs(c.1 - level.height as int / 2)
}

/// Where the dock may land: in the largest walkable component (the first found scanning rows
/// among equals), on ground no farther from the centre than any other ground of that component.
pub open spec fn dock_site(level: Level, s: (int, int)) -> bool {
    exists|lab: Map<(int, int), nat>, root: (int, int)| #[trigger] largest_component(level, lab, root)
        && first_of_size(level, lab.dom().len() as int, root)
        && lab.dom().contains(s)
        && forall|c: (int, int)| #[trigger] lab.dom().contains(c) ==> center_distance(level, c) >= center_distance(level, s)
}

/// The tiles cleared around the dock at `s`: the non-walkable ones of its 3x3 block with both
/// coordinates in `[0, lim]`.
pub open spec fn in_clearing(level: Level, s: (int, int), lim: int, c: int, r: int) -> bool {
    iabs(c - s.0) <= 1 && iabs(r - s.1) <= 1 && 0 <= c <= lim && 0 <= r <= lim && !level.spec_walkable(c, r)
}

pub open spec fn clearing_within(level: Level, s: (int, int), lim: int) -> spec_fn(int, int) -> bool {
    |c: int, r: int| in_clearing(level, s, lim, c, r)
}

/// The clearing around a dock on a planet-sized surface.
pub open spec fn dock_clearing(level: Level, s: (int, int)) -> spec_fn(int, int) -> bool {
    clearing_within(level, s, PLANET_SIZE - 1)
}

/// The grid once the dock lands at `s`: its 3x3 block cleared to `fill`, then the dock itself.
pub open spec fn dock_cells(level: Level, s: (int, int), fill: Tile) -> Seq<Seq<Tile>> {
    set_cells(paint(level.cells(), dock_clearing(level, s), fill), level.width as int,
        level.height as int, s.0, s.1, Tile::ShipDock)
}

/// The `j`th listed tile is solid ground.
pub open spec fn ground_at(level: Level, v: Seq<(i32, i32)>, j: int) -> bool {
    level.spec_walkable(v[j].0 as int, v[j].1 as int)
}

pub open spec fn listed_distance(level: Level, v: Seq<(i32, i32)>, j: int) -> int {
    center_distance(level, (v[j].0 as int, v[j].1 as int))
}

/// The first of the listed tiles that is solid ground and nearest the centre, if any is ground.
pub fn nearest_ground(level: &Level, cells: &Vec<(i32, i32)>) -> (r: Option<usize>)
    requires
        level.wf(),
        level.width <= i32::MAX,
        level.height <= i32::MAX,
    ensures
        r is None <==> forall|j: int| 0 <= j < cells@.len() ==> !#[trigger] ground_at(*level, cells@, j),
        r is Some ==> r->0 < cells@.len() && ground_at(*level, cells@, r->0 as int),
        r is Some ==> forall|j: int| 0 <= j < cells@.len() && #[trigger] ground_at(*level, cells@, j)
            ==> listed_distance(*level, cells@, j) >= listed_distance(*level, cells@, r->0 as int),
        r is Some ==> forall|j: int| 0 <= j < r->0 && #[trigger] ground_at(*level, cells@, j)
            ==> listed_distance(*level, cells@, j) > listed_distance(*level, cells@, r->0 as int),
{
    let cx = level.width as i32 / 2;
    let cy = level.height as i32 / 2;
    let mut found: Option<usize> = None;
    let mut found_d: i64 = 0;
    let mut i: usize = 0;
    while i < cells.len()
        invariant
            level.wf(),
            level.width <= i32::MAX,
            level.height <= i32::MAX,
            cx == level.width as int / 2,
            cy == level.height as int / 2,
            i <= cells@.len(),
            found is None ==> forall|j: int| 0 <= j < i ==> !#[trigger] ground_at(*level, cells@, j),
            found is Some ==> found->0 < i && ground_at(*level, cells@, found->0 as int)
                && found_d == listed_distance(*level, cells@, found->0 as int),
            found is Some ==> forall|j: int| 0 <= j < i && #[trigger] ground_at(*level, cells@, j)
                ==> listed_distance(*level, cells@, j) >= found_d,
            found is Some ==> forall|j: int| 0 <= j < found->0 && #[trigger] ground_at(*level, cells@, j)
                ==> listed_distance(*level, cells@, j) > found_d,
        decreases cells@.len() - i,
    {
        let (x, y) = cells[i];
        let ground = match level.get(x, y) {
            Some(t) => is_solid_ground(t),
            None => false,
        };
        assert(ground == ground_at(*level, cells@, i as int));
        if ground {
            let dx: i64 = x as i64 - cx as i64;
            let dy: i64 = y as i64 - cy as i64;
            let d: i64 = (if dx < 0 { -dx } else { dx }) + (if dy < 0 { -dy } else { dy });
            assert(d == listed_distance(*level, cells@, i as int));
            let better = match found {
                None => true,
                Some(_) => d < found_d,
            };
            if better {
                found = Some(i);
                found_d = d;
            }
        }
        i = i + 1;
    }
    found
}

/// Clears the non-walkable tiles of the 3x3 block around `(sx, sy)` with both coordinates in
/// `[0, lim]` to `fill`.
#[verifier::spinoff_prover]
pub(crate) fn clear_around(level: &mut Level, sx: i32, sy: i32, lim: i32, fill: Tile)
    requires
        old(level).wf(),
        0 <= sx < old(level).width,
        0 <= sy < old(level).height,
        old(level).width <= i32::MAX,
        old(level).height <= i32::MAX,
        0 <= lim < i32::MAX,
    ensures
        final(level).wf(),
        final(level).width == old(level).width,
        final(level).height == old(level).height,
        final(level).cells() == paint(old(level).cells(), clearing_within(*old(level), (sx as int, sy as int), lim as int), fill),
{
    let ghost orig = *level;
    let ghost oc = level.cells();
    let ghost lw = level.width as int;
    let ghost lh = level.height as int;
    let ghost s = (sx as int, sy as int);
    let ghost clear = clearing_within(orig, s, lim as int);
    proof {
        orig.lemma_wf_dims();
    }
    let max = lim;
    let y0 = if sy - 1 > 0 { sy - 1 } else { 0 };
    let y1 = if sy + 1 < max { sy + 1 } else { max };
    let x0 = if sx - 1 > 0 { sx - 1 } else { 0 };
    let x1 = if sx + 1 < max { sx + 1 } else { max };
    proof {
        assert forall|c: int, r: int| #[trigger] clear(c, r) implies y0 <= r <= y1 && x0 <= c <= x1 by {
            assert(in_clearing(orig, s, lim as int, c, r));
        }
        lemma_paint_ext(oc, |c: int, r: int| clear(c, r) && r < y0, |c: int, r: int| false, fill);
        lemma_paint_none(oc, lw, lh, |c: int, r: int| false, fill);
    }
    let mut py = y0;
    while py <= y1
        invariant
            level.wf(),
            level.width == lw,
            level.height == lh,
            grid_dims(oc, lw, lh),
            orig.wf(),
            orig.width == lw,
            orig.height == lh,
            oc == orig.cells(),
            clear == clearing_within(orig, s, lim as int),
            forall|c: int, r: int| #[trigger] clear(c, r) ==> y0 <= r <= y1 && x0 <= c <= x1,
            s == (sx as int, sy as int),
            y0 == (if sy - 1 > 0 { sy - 1 } else { 0 }),
            y1 == (if sy + 1 < max { sy + 1 } else { max as int }),
            x0 == (if sx - 1 > 0 { sx - 1 } else { 0 }),
            x1 == (if sx + 1 < max { sx + 1 } else { max as int }),
            y0 <= py,
            py <= y1 + 1 || py == y0,
            y1 <= max,
            x1 <= max,
            max == lim,
            max < i32::MAX,
            level.cells() == paint(oc, |c: int, r: int| clear(c, r) && r < py, fill),
        decreases y1 + 1 - py,
    {
        let mut px = x0;
        proof {
            assert forall|c: int, r: int| (#[trigger] clear(c, r) && r < py) == (clear(c, r) && (r < py || (r == py && c < px))) by {}
            lemma_paint_ext(oc, |c: int, r: int| clear(c, r) && r < py,
                |c: int, r: int| clear(c, r) && (r < py || (r == py && c < px)), fill);
        }
        while px <= x1
            invariant
                level.wf(),
                level.width == lw,
                level.height == lh,
                grid_dims(oc, lw, lh),
                orig.wf(),
                orig.width == lw,
                orig.height == lh,
                oc == orig.cells(),
                clear == clearing_within(orig, s, lim as int),
                forall|c: int, r: int| #[trigger] clear(c, r) ==> y0 <= r <= y1 && x0 <= c <= x1,
                s == (sx as int, sy as int),
                y0 == (if sy - 1 > 0 { sy - 1 } else { 0 }),
                y1 == (if sy + 1 < max { sy + 1 } else { max as int }),
                x0 == (if sx - 1 > 0 { sx - 1 } else { 0 }),
                x1 == (if sx + 1 < max { sx + 1 } else { max as int }),
                y0 <= py <= y1,
                x0 <= px,
                px <= x1 + 1 || px == x0,
                x1 <= max,
                max == lim,
                max < i32::MAX,
                level.cells() == paint(oc, |c: int, r: int| clear(c, r) && (r < py || (r == py && c < px)), fill),
            decreases x1 + 1 - px,
        {
            let ghost p = |c: int, r: int| clear(c, r) && (r < py || (r == py && c < px));
            let ghost q = |c: int, r: int| clear(c, r) && (r < py || (r == py && c < px + 1));
            proof {
                level.lemma_wf_dims();
                orig.lemma_wf_dims();
                if orig.in_bounds(px as int, py as int) {
                    assert(!p(px as int, py as int));
                    assert(level.cells()[py as int][px as int] == oc[py as int][px as int]);
                    assert(level.tile_at(px as int, py as int) == orig.tile_at(px as int, py as int));
                }
            }
            if !level.walkable(px, py) {
                level.set(px, py, fill);
                proof {
                    lemma_paint_set(oc, lw, lh, p, px as int, py as int, fill);
                    assert forall|c: int, r: int| (#[trigger] p(c, r) || (c == px && r == py)) == q(c, r) by {
                        if c == px && r == py {
                            assert(in_clearing(orig, s, lim as int, c, r));
                        }
                    }
                    lemma_paint_ext(oc, |c: int, r: int| p(c, r) || (c == px && r == py), q, fill);
                }
            } else {
                proof {
                    assert forall|c: int, r: int| #[trigger] p(c, r) == q(c, r) by {
                        if c == px && r == py {
                            assert(!in_clearing(orig, s, lim as int, c, r));
                        }
                    }
                    lemma_paint_ext(oc, p, q, fill);
                }
            }
            px = px + 1;
        }
        proof {
            assert forall|c: int, r: int| (#[trigger] clear(c, r) && (r < py || (r == py && c < px))) == (clear(c, r) && r < py + 1) by {}
            lemma_paint_ext(oc, |c: int, r: int| clear(c, r) && (r < py || (r == py && c < px)),
                |c: int, r: int| clear(c, r) && r < py + 1, fill);
        }
        py = py + 1;
    }
    proof {
        assert forall|c: int, r: int| (#[trigger] clear(c, r) && r < py) == clear(c, r) by {}
        lemma_paint_ext(oc, |c: int, r: int| clear(c, r) && r < py, clear, fill);
    }
}

/// The ground tile of the largest component nearest the centre is a dock site.
pub(crate) proof fn lemma_dock_site(level: Level, best: Seq<(i32, i32)>, lab: Map<(int, int), nat>, root: (int, int), k: int)
    requires
        largest_component(level, lab, root),
        first_of_size(level, best.len() as int, root),
        best.len() == lab.dom().len(),
        cells_of(best) == lab.dom(),
        0 <= k < best.len(),
        forall|j: int| 0 <= j < best.len() && #[trigger] ground_at(level, best, j)
            ==> listed_distance(level, best, j) >= listed_distance(level, best, k),
    ensures
        dock_site(level, (best[k].0 as int, best[k].1 as int)),
{
    reveal(largest_component);
    let s = (best[k].0 as int, best[k].1 as int);
    assert(best[k] == (s.0 as i32, s.1 as i32));
    assert(cells_of(best).contains(s));
    assert forall|c: (int, int)| #[trigger] lab.dom().contains(c) implies center_distance(level, c) >= center_distance(level, s) by {
        assert(cells_of(best).contains(c));
        let j = choose|j: int| 0 <= j < best.len() && #[trigger] best[j] == (c.0 as i32, c.1 as i32) && in_i32(c);
        assert(walk(level, c));
        assert(ground_at(level, best, j));
    }
    assert(largest_component(level, lab, root));
}

/// When no listed tile of a component is ground, nothing is walkable.
pub(crate) proof fn lemma_no_ground(level: Level, best: Seq<(i32, i32)>, lab: Map<(int, int), nat>, root: (int, int))
    requires
        has_walkable(level) ==> largest_component(level, lab, root) && cells_of(best) == lab.dom(),
        forall|j: int| 0 <= j < best.len() ==> !#[trigger] ground_at(level, best, j),
    ensures
        !has_walkable(level),
{
    reveal(largest_component);
    if has_walkable(level) {
        assert(lab.dom().contains(root));
        assert(cells_of(best).contains(root));
        let j = choose|j: int| 0 <= j < best.len() && #[trigger] best[j] == (root.0 as i32, root.1 as i32) && in_i32(root);
        assert(walk(level, root));
        assert(ground_at(level, best, j));
    }
}

/// Lands the ship dock in the largest walkable region, on its ground nearest the centre (the
/// first such tile in the region's order), clearing the non-walkable tiles around it to `fill`.
/// A level with nothing walkable is left as it is.
#[verifier::spinoff_prover]
pub fn place_ship_dock(level: &mut Level, fill: Tile)
    requires
        old(level).wf(),
        old(level).width <= i32::MAX,
        old(level).height <= i32::MAX,
    ensures
        final(level).wf(),
        final(level).width == old(level).width,
        final(level).height == old(level).height,
        !has_walkable(*old(level)) ==> final(level).cells() == old(level).cells(),
        has_walkable(*old(level)) ==> exists|s: (int, int)| #[trigger] dock_site(*old(level), s)
            && final(level).cells() == dock_cells(*old(level), s, fill),
{
    let ghost orig = *level;
    let (best, Ghost(lab), Ghost(root)) = largest_labelled(level);
    let k = match nearest_ground(level, &best) {
        Some(k) => k,
        None => {
            proof {
                lemma_no_ground(orig, best@, lab, root);
            }
            return;
        },
    };
    let (sx, sy) = best[k];
    let ghost s = (sx as int, sy as int);
    proof {
        assert(walk(orig, s));
        assert(has_walkable(orig));
        lemma_dock_site(orig, best@, lab, root, k as int);
    }
    clear_around(level, sx, sy, PLANET_SIZE as i32 - 1, fill);
    level.set(sx, sy, Tile::ShipDock);
    assert(level.cells() == dock_cells(orig, s, fill));
}

/// `a` comes no later than `b` ordered by x, then y.
pub open spec fn lex_le(a: (i32, i32), b: (i32, i32)) -> bool {
    a.0 < b.0 || (a.0 == b.0 && a.1 <= b.1)
}

pub open spec fn sorted_lex(s: Seq<(i32, i32)>) -> bool {
    forall|i: int, j: int| 0 <= i < j < s.len() ==> lex_le(s[i], s[j])
}

/// The positions sorted by x, then y.
#[verifier::spinoff_prover]
fn sort_positions(v: Vec<(i32, i32)>) -> (r: Vec<(i32, i32)>)
    ensures
        sorted_lex(r@),
        r@.to_multiset() == v@.to_multiset(),
        r@.len() == v@.len(),
{
    let mut r: Vec<(i32, i32)> = Vec::new();
    let mut k: usize = 0;
    assert(r@ =~= v@.subrange(0, 0));
    while k < v.len()
        invariant
            k <= v@.len(),
            sorted_lex(r@),
            r@.to_multiset() == v@.subrange(0, k as int).to_multiset(),
            r@.len() == k,
        decreases v@.len() - k,
    {
        let e = v[k];
        let mut p: usize = 0;
        while p < r.len() && lex_le_exec(r[p], e)
            invariant
                p <= r@.len(),
                forall|j: int| 0 <= j < p ==> lex_le(r@[j], e),
            decreases r@.len() - p,
        {
            p = p + 1;
        }
        let ghost before = r@;
        r.insert(p, e);
        proof {
            vstd::seq_lib::to_multiset_insert(before, p as int, e);
            assert(v@.subrange(0, k as int + 1) =~= v@.subrange(0, k as int).push(e));
            vstd::seq_lib::to_multiset_build(v@.subrange(0, k as int), e);
            assert forall|i: int, j: int| 0 <= i < j < r@.len() implies lex_le(r@[i], r@[j]) by {
                if j < p {
                    assert(r@[i] == before[i] && r@[j] == before[j]);
                } else if j == p {
                    assert(r@[i] == before[i]);
                } else if i == p {
                    assert(r@[j] == before[j - 1]);
                    assert(!lex_le(before[p as int], e));
                    assert(lex_le(before[p as int], before[j - 1]) || p == j - 1);
                } else if i < p {
                    assert(r@[i] == before[i] && r@[j] == before[j - 1]);
                } else {
                    assert(r@[i] == before[i - 1] && r@[j] == before[j - 1]);
                }
            }
        }
        k = k + 1;
    }
    assert(v@.subrange(0, v@.len() as int) =~= v@);
    r
}

fn lex_le_exec(a: (i32, i32), b: (i32, i32)) -> (r: bool)
    ensures
        r == lex_le(a, b),
{
    a.0 < b.0 || (a.0 == b.0 && a.1 <= b.1)
}

/// Live cells of the 3x3 block around `(x, y)`.
pub open spec fn block9(g: Seq<Seq<bool>>, x: int, y: int) -> int {
    (if g[y - 1][x - 1] { 1int } else { 0 }) + (if g[y - 1][x] { 1int } else { 0 }) + (if g[y - 1][x + 1] { 1int } else { 0 })
        + (if g[y][x - 1] { 1int } else { 0 }) + (if g[y][x] { 1int } else { 0 }) + (if g[y][x + 1] { 1int } else { 0 })
        + (if g[y + 1][x - 1] { 1int } else { 0 }) + (if g[y + 1][x] { 1int } else { 0 }) + (if g[y + 1][x + 1] { 1int } else { 0 })
}

/// One pass of the cave automaton on a `size` square: an inner cell is floor when most of its
/// 3x3 block is (at least five floor neighbours, or four and itself); the rim is rock.
pub open spec fn cave_step(g: Seq<Seq<bool>>, size: int) -> Seq<Seq<bool>> {
    Seq::new(size as nat, |y: int| Seq::new(size as nat, |x: int| 1 <= x < size - 1 && 1 <= y < size - 1 && block9(g, x, y) > 4))
}

/// `n` passes of the cave automaton.
pub open spec fn cave_steps(g: Seq<Seq<bool>>, size: int, n: nat) -> Seq<Seq<bool>>
    decreases n,
{
    if n == 0 { g } else { cave_step(cave_steps(g, size, (n - 1) as nat), size) }
}

/// Passes of the automaton the cave under a planet gets.
pub const CAVE_SMOOTH_PASSES: usize = 5;

/// `seeded` after the cave automaton's passes.
fn smooth_cave_cells(seeded: Vec<Vec<bool>>, size: usize) -> (r: Vec<Vec<bool>>)
    requires
        size >= 1,
        crate::map::rows_dims(seeded@, size as int, size as int),
    ensures
        crate::map::rows_dims(r@, size as int, size as int),
        crate::editor::rows_of(r@) == cave_steps(crate::editor::rows_of(seeded@), size as int, CAVE_SMOOTH_PASSES as nat),
{
    let ghost g0 = crate::editor::rows_of(seeded@);
    let mut cells = seeded;
    let mut pass: usize = 0;
    while pass < CAVE_SMOOTH_PASSES
        invariant
            size >= 1,
            pass <= CAVE_SMOOTH_PASSES,
            crate::map::rows_dims(cells@, size as int, size as int),
            crate::editor::rows_of(cells@) == cave_steps(g0, size as int, pass as nat),
        decreases CAVE_SMOOTH_PASSES - pass,
    {
        let next = crate::map::TileMap::smooth_cave(cells.as_slice(), size, size);
        proof {
            let g = crate::editor::rows_of(cells@);
            let want = cave_step(g, size as int);
            assert forall|y: int| 0 <= y < size implies #[trigger] crate::editor::rows_of(next@)[y] == want[y] by {
                assert forall|x: int| 0 <= x < size implies #[trigger] crate::editor::rows_of(next@)[y][x] == want[y][x] by {
                    assert(next@[y]@[x] == crate::map::smoothed_cell(cells@, size as int, size as int, x, y));
                    if 1 <= x < size - 1 && 1 <= y < size - 1 {
                        assert(crate::map::block_count(cells@, x, y) == block9(g, x, y));
                    }
                }
                assert(crate::editor::rows_of(next@)[y] =~= want[y]);
            }
            assert(crate::editor::rows_of(next@) =~= want);
        }
        cells = next;
        pass = pass + 1;
    }
    cells
}

/// How many entrances lead down into a planet's cave.
pub const CAVE_ENTRANCES: usize = 3;

/// The cave tiles of an automaton grid: floor where it is live, rock elsewhere.
pub open spec fn floor_cells(g: Seq<Seq<bool>>) -> Seq<Seq<Tile>> {
    Seq::new(g.len(), |y: int| Seq::new(g[y].len(), |x: int| if g[y][x] { Tile::CaveFloor } else { Tile::CaveWall }))
}

/// Surface ground a cave mouth may open under: any walkable tile, or on natural planets the
/// solid kinds of ground.
pub open spec fn entrance_ground(surface: Level, x: int, y: int, natural: bool) -> bool {
    if natural {
        crate::locations::natural_planet::spec_natural_solid(match surface.tile_opt(x, y) {
            Some(t) => t,
            None => Tile::CaveWall,
        })
    } else {
        surface.spec_walkable(x, y)
    }
}

/// Cave cells that can host an entrance: five tiles in from every edge, under solid ground.
pub open spec fn entrance_cands(surface: Level, best: Seq<(i32, i32)>, size: int, natural: bool) -> Seq<(i32, i32)>
    decreases best.len(),
{
    if best.len() == 0 {
        Seq::empty()
    } else {
        let prev = entrance_cands(surface, best.drop_last(), size, natural);
        let p = best.last();
        if 5 < p.0 < size - 5 && 5 < p.1 < size - 5 && entrance_ground(surface, p.0 as int, p.1 as int, natural) { prev.push(p) } else { prev }
    }
}

/// Cave cells that can hold a chest: three tiles in from every edge and not an entrance.
pub open spec fn chest_cands(best: Seq<(i32, i32)>, entrances: Seq<(i32, i32)>, size: int) -> Seq<(i32, i32)>
    decreases best.len(),
{
    if best.len() == 0 {
        Seq::empty()
    } else {
        let prev = chest_cands(best.drop_last(), entrances, size);
        let p = best.last();
        if !entrances.contains(p) && 3 < p.0 < size - 3 && 3 < p.1 < size - 3 { prev.push(p) } else { prev }
    }
}

/// `count` picks from `s`, `step` apart from the first.
pub open spec fn spaced(s: Seq<(i32, i32)>, count: int, step: int) -> Seq<(i32, i32)> {
    Seq::new(count as nat, |i: int| s[i * step])
}

/// The chests: one per 80 candidates, between 2 and 6 (no more than there are candidates),
/// evenly spaced through the candidates.
pub open spec fn chest_picks(cands: Seq<(i32, i32)>) -> Seq<(i32, i32)> {
    let q = cands.len() as int / 80;
    let count: int = if q < 2 { 2 } else if q > 6 { 6 } else { q };
    let step = (if cands.len() > 1 { cands.len() as int } else { 1 }) / count;
    spaced(cands, if count < cands.len() { count } else { cands.len() as int }, step)
}

/// `(c, r)` lies in the 3x3 block around one of the first `k` entrances.
pub open spec fn in_entrance_boxes(entrances: Seq<(i32, i32)>, k: int, c: int, r: int) -> bool
    decreases k,
{
    if k <= 0 {
        false
    } else {
        (iabs(c - entrances[k - 1].0) <= 1 && iabs(r - entrances[k - 1].1) <= 1) || in_entrance_boxes(entrances, k - 1, c, r)
    }
}

/// The rock cleared around the entrances.
pub open spec fn entrance_clearing(cave: Level, entrances: Seq<(i32, i32)>) -> spec_fn(int, int) -> bool {
    |c: int, r: int| in_entrance_boxes(entrances, entrances.len() as int, c, r) && !cave.spec_walkable(c, r)
}

/// What the cave under a planet is given: the stairways down and the chests on its floor.
pub struct CaveSublevelPlan {
    pub entrances: Vec<(i32, i32)>,
    pub chests: Vec<(i32, i32)>,
}

/// The cave level `cave1` and the plan follow from the automaton grid `g5`: `cave0` is its
/// floor and rock, `best` its largest region (`sorted`, the region's entrance candidates in
/// order); a region under 20 cells, or one with no candidate, gets nothing; else up to three
/// evenly spaced entrances with the rock around them cleared, and the chests.
pub open spec fn cave_plan_ok(surface: Level, natural: bool, size: int, g5: Seq<Seq<bool>>, cave0: Level, best: Seq<(i32, i32)>,
    sorted: Seq<(i32, i32)>, cave1: Level, entrances: Seq<(i32, i32)>, chests: Seq<(i32, i32)>) -> bool {
    &&& cave0.wf()
    &&& cave0.width == size
    &&& cave0.height == size
    &&& cave0.cells() == floor_cells(g5)
    &&& has_walkable(cave0) ==> lists_largest(cave0, best)
    &&& !has_walkable(cave0) ==> best.len() == 0
    &&& cave1.wf()
    &&& cave1.width == size
    &&& cave1.height == size
    &&& if best.len() < 20 {
        &&& entrances.len() == 0
        &&& chests.len() == 0
        &&& cave1.cells() == cave0.cells()
    } else {
        let cands = entrance_cands(surface, best, size, natural);
        let count = if CAVE_ENTRANCES < sorted.len() { CAVE_ENTRANCES as int } else { sorted.len() as int };
        &&& sorted_lex(sorted)
        &&& sorted.to_multiset() == cands.to_multiset()
        &&& if count == 0 {
            &&& entrances.len() == 0
            &&& chests.len() == 0
            &&& cave1.cells() == cave0.cells()
        } else {
            &&& entrances == spaced(sorted, count, sorted.len() as int / count)
            &&& cave1.cells() == paint(cave0.cells(), entrance_clearing(cave0, entrances), Tile::CaveFloor)
            &&& chests == chest_picks(chest_cands(best, entrances, size))
        }
    }
}

/// The cave level of an automaton grid: floor where it is live, rock elsewhere.
fn floor_level(cells: &Vec<Vec<bool>>, size: usize) -> (l: Level)
    requires
        crate::map::rows_dims(cells@, size as int, size as int),
    ensures
        l.wf(),
        l.width == size,
        l.height == size,
        l.cells() == floor_cells(crate::editor::rows_of(cells@)),
{
    let mut tiles: Vec<Vec<Tile>> = Vec::new();
    let mut y: usize = 0;
    while y < size
        invariant
            y <= size,
            crate::map::rows_dims(cells@, size as int, size as int),
            tiles@.len() == y,
            forall|j: int| 0 <= j < y ==> (#[trigger] tiles@[j])@ == floor_cells(crate::editor::rows_of(cells@))[j],
        decreases size - y,
    {
        let mut row: Vec<Tile> = Vec::new();
        let mut x: usize = 0;
        while x < size
            invariant
                x <= size,
                y < size,
                crate::map::rows_dims(cells@, size as int, size as int),
                row@.len() == x,
                forall|i: int| 0 <= i < x ==> #[trigger] row@[i] == (if cells@[y as int]@[i] { Tile::CaveFloor } else { Tile::CaveWall }),
            decreases size - x,
        {
            row.push(if cells[y][x] { Tile::CaveFloor } else { Tile::CaveWall });
            x = x + 1;
        }
        assert(row@ =~= floor_cells(crate::editor::rows_of(cells@))[y as int]);
        tiles.push(row);
        y = y + 1;
    }
    let l = Level { tiles, width: size, height: size };
    assert(l.cells() =~= floor_cells(crate::editor::rows_of(cells@)));
    l
}

/// The entrance candidates of the region `best`, in its order.
fn collect_entrance_cands(surface: &Level, best: &Vec<(i32, i32)>, size: i32, natural: bool) -> (v: Vec<(i32, i32)>)
    requires
        surface.wf(),
        size >= 0,
    ensures
        v@ == entrance_cands(*surface, best@, size as int, natural),
{
    let mut v: Vec<(i32, i32)> = Vec::new();
    let mut i: usize = 0;
    while i < best.len()
        invariant
            surface.wf(),
            size >= 0,
            i <= best@.len(),
            v@ == entrance_cands(*surface, best@.subrange(0, i as int), size as int, natural),
        decreases best@.len() - i,
    {
        let (x, y) = best[i];
        assert(best@.subrange(0, i as int + 1).drop_last() =~= best@.subrange(0, i as int));
        let t = match surface.get(x, y) {
            Some(t) => t,
            None => Tile::CaveWall,
        };
        let ground = if natural { crate::locations::natural_planet::is_solid_ground(t) } else { is_solid_ground(t) };
        if x > 5 && y > 5 && x < size - 5 && y < size - 5 && ground {
            v.push((x, y));
        }
        i = i + 1;
    }
    assert(best@.subrange(0, best@.len() as int) =~= best@);
    v
}

/// The chest candidates of the region `best`, in its order.
fn collect_chest_cands(best: &Vec<(i32, i32)>, entrances: &Vec<(i32, i32)>, size: i32) -> (v: Vec<(i32, i32)>)
    requires
        size >= 0,
    ensures
        v@ == chest_cands(best@, entrances@, size as int),
{
    let mut v: Vec<(i32, i32)> = Vec::new();
    let mut i: usize = 0;
    while i < best.len()
        invariant
            size >= 0,
            i <= best@.len(),
            v@ == chest_cands(best@.subrange(0, i as int), entrances@, size as int),
        decreases best@.len() - i,
    {
        let (x, y) = best[i];
        assert(best@.subrange(0, i as int + 1).drop_last() =~= best@.subrange(0, i as int));
        let mut taken = false;
        let mut j: usize = 0;
        while j < entrances.len()
            invariant
                j <= entrances@.len(),
                taken == exists|k: int| 0 <= k < j && entrances@[k] == (x, y),
            decreases entrances@.len() - j,
        {
            let (ex, ey) = entrances[j];
            if ex == x && ey == y {
                taken = true;
            }
            j = j + 1;
        }
        assert(taken == entrances@.contains((x, y)));
        if !taken && x > 3 && y > 3 && x < size - 3 && y < size - 3 {
            v.push((x, y));
        }
        i = i + 1;
    }
    assert(best@.subrange(0, best@.len() as int) =~= best@);
    v
}

/// `count` picks from `s`, `step` apart from the first.
fn pick_spaced(s: &Vec<(i32, i32)>, count: usize, step: usize) -> (v: Vec<(i32, i32)>)
    requires
        count > 0 ==> (count - 1) * step < s@.len(),
    ensures
        v@ == spaced(s@, count as int, step as int),
{
    let mut v: Vec<(i32, i32)> = Vec::new();
    let n = s.len();
    let mut i: usize = 0;
    while i < count
        invariant
            i <= count,
            n == s@.len(),
            count > 0 ==> (count - 1) * step < s@.len(),
            v@ == spaced(s@, i as int, step as int),
        decreases count - i,
    {
        assert(i * step <= (count - 1) * step) by (nonlinear_arith)
            requires
                i < count,
        ;
        v.push(s[i * step]);
        i = i + 1;
        assert(v@ =~= spaced(s@, i as int, step as int));
    }
    v
}

/// The rock cleared so far: the blocks of the first `k` entrances, and of entrance `k` the cells
/// before `(dx, dy)`.
pub open spec fn clearing_upto(cave: Level, entrances: Seq<(i32, i32)>, k: int, dy: int, dx: int) -> spec_fn(int, int) -> bool {
    |c: int, r: int| !cave.spec_walkable(c, r) && (in_entrance_boxes(entrances, k, c, r)
        || (k < entrances.len() && -1 <= c - entrances[k].0 <= 1 && -1 <= r - entrances[k].1
            && (r - entrances[k].1 < dy || (r - entrances[k].1 == dy && c - entrances[k].0 < dx))))
}

/// Clears the rock in the 3x3 block around each entrance.
#[verifier::spinoff_prover]
fn clear_entrances(cave: &mut Level, entrances: &Vec<(i32, i32)>)
    requires
        old(cave).wf(),
        forall|i: int| 0 <= i < entrances@.len() ==> i32::MIN < (#[trigger] entrances@[i]).0 < i32::MAX
            && i32::MIN < entrances@[i].1 < i32::MAX,
    ensures
        final(cave).wf(),
        final(cave).width == old(cave).width,
        final(cave).height == old(cave).height,
        final(cave).cells() == paint(old(cave).cells(), entrance_clearing(*old(cave), entrances@), Tile::CaveFloor),
{
    let ghost c0 = *cave;
    let ghost oc = cave.cells();
    let ghost lw = cave.width as int;
    let ghost lh = cave.height as int;
    proof {
        c0.lemma_wf_dims();
        lemma_paint_ext(oc, clearing_upto(c0, entrances@, 0, -1, -1), |c: int, r: int| false, Tile::CaveFloor);
        lemma_paint_none(oc, lw, lh, |c: int, r: int| false, Tile::CaveFloor);
    }
    let mut k: usize = 0;
    while k < entrances.len()
        invariant
            cave.wf(),
            c0.wf(),
            cave.width == lw,
            cave.height == lh,
            c0.width == lw,
            c0.height == lh,
            oc == c0.cells(),
            grid_dims(oc, lw, lh),
            k <= entrances@.len(),
            forall|i: int| 0 <= i < entrances@.len() ==> i32::MIN < (#[trigger] entrances@[i]).0 < i32::MAX
                && i32::MIN < entrances@[i].1 < i32::MAX,
            cave.cells() == paint(oc, clearing_upto(c0, entrances@, k as int, -1, -1), Tile::CaveFloor),
        decreases entrances@.len() - k,
    {
        let (ex, ey) = entrances[k];
        let mut dy: i32 = -1;
        while dy <= 1
            invariant
                cave.wf(),
                c0.wf(),
                cave.width == lw,
                cave.height == lh,
                c0.width == lw,
                c0.height == lh,
                oc == c0.cells(),
                grid_dims(oc, lw, lh),
                k < entrances@.len(),
                (ex, ey) == entrances@[k as int],
                i32::MIN < ex < i32::MAX,
                i32::MIN < ey < i32::MAX,
                -1 <= dy <= 2,
                cave.cells() == paint(oc, clearing_upto(c0, entrances@, k as int, dy as int, -1), Tile::CaveFloor),
            decreases 2 - dy,
        {
            let mut dx: i32 = -1;
            while dx <= 1
                invariant
                    cave.wf(),
                    c0.wf(),
                    cave.width == lw,
                    cave.height == lh,
                    c0.width == lw,
                    c0.height == lh,
                    oc == c0.cells(),
                    grid_dims(oc, lw, lh),
                    k < entrances@.len(),
                    (ex, ey) == entrances@[k as int],
                    i32::MIN < ex < i32::MAX,
                    i32::MIN < ey < i32::MAX,
                    -1 <= dy <= 1,
                    -1 <= dx <= 2,
                    cave.cells() == paint(oc, clearing_upto(c0, entrances@, k as int, dy as int, dx as int), Tile::CaveFloor),
                decreases 2 - dx,
            {
                let x = ex + dx;
                let y = ey + dy;
                let ghost p = clearing_upto(c0, entrances@, k as int, dy as int, dx as int);
                let ghost q = clearing_upto(c0, entrances@, k as int, dy as int, dx as int + 1);
                proof {
                    cave.lemma_wf_dims();
                    c0.lemma_wf_dims();
                    if cave.in_bounds(x as int, y as int) && !p(x as int, y as int) {
                        assert(cave.cells()[y as int][x as int] == oc[y as int][x as int]);
                    }
                }
                if !cave.walkable(x, y) {
                    cave.set(x, y, Tile::CaveFloor);
                    proof {
                        lemma_paint_set(oc, lw, lh, p, x as int, y as int, Tile::CaveFloor);
                        assert forall|c: int, r: int| (#[trigger] p(c, r) || (c == x && r == y)) == q(c, r) by {
                            if c == x && r == y && !p(c, r) && c0.in_bounds(c, r) {
                                assert(!c0.spec_walkable(c, r));
                            }
                        }
                        lemma_paint_ext(oc, |c: int, r: int| p(c, r) || (c == x && r == y), q, Tile::CaveFloor);
                    }
                } else {
                    proof {
                        assert forall|c: int, r: int| #[trigger] p(c, r) == q(c, r) by {
                            if c == x && r == y && !p(c, r) {
                                assert(c0.spec_walkable(c, r));
                            }
                        }
                        lemma_paint_ext(oc, p, q, Tile::CaveFloor);
                    }
                }
                dx = dx + 1;
            }
            proof {
                lemma_paint_ext(oc, clearing_upto(c0, entrances@, k as int, dy as int, 2),
                    clearing_upto(c0, entrances@, k as int, dy as int + 1, -1), Tile::CaveFloor);
            }
            dy = dy + 1;
        }
        proof {
            lemma_paint_ext(oc, clearing_upto(c0, entrances@, k as int, 2, -1),
                clearing_upto(c0, entrances@, k as int + 1, -1, -1), Tile::CaveFloor);
        }
        k = k + 1;
    }
    proof {
        lemma_paint_ext(oc, clearing_upto(c0, entrances@, entrances@.len() as int, -1, -1),
            entrance_clearing(c0, entrances@), Tile::CaveFloor);
    }
}

proof fn lemma_entrance_cands_inside(surface: Level, best: Seq<(i32, i32)>, size: int, natural: bool, p: (i32, i32))
    requires
        entrance_cands(surface, best, size, natural).contains(p),
    ensures
        5 < p.0 < size - 5,
        5 < p.1 < size - 5,
    decreases best.len(),
{
    if best.len() > 0 {
        let prev = entrance_cands(surface, best.drop_last(), size, natural);
        if prev.contains(p) {
            lemma_entrance_cands_inside(surface, best.drop_last(), size, natural, p);
        } else {
            let c = entrance_cands(surface, best, size, natural);
            let i = choose|i: int| 0 <= i < c.len() && c[i] == p;
            if c != prev {
                assert(c == prev.push(best.last()));
                if i < prev.len() {
                    assert(prev.contains(p));
                }
            }
        }
    }
}

proof fn lemma_spaced_fits(len: int, count: int)
    requires
        1 <= count <= len,
    ensures
        (count - 1) * (len / count) < len,
{
    vstd::arithmetic::div_mod::lemma_fundamental_div_mod(len, count);
    let q = len / count;
    assert((count - 1) * q + q == count * q) by (nonlinear_arith);
    assert(q >= 1) by {
        vstd::arithmetic::div_mod::lemma_div_is_ordered(count, len, count);
        vstd::arithmetic::div_mod::lemma_div_by_self(count);
    }
}

/// Carves the cave under a planet from the seeded automaton grid; entrances open under ground
/// `entrance_ground` accepts (with `natural`).
#[verifier::spinoff_prover]
pub(crate) fn cave_sublevel_with(loc: &mut crate::galaxy::Location, seeded: Vec<Vec<bool>>, natural: bool) -> (plan: CaveSublevelPlan)
    requires
        old(loc).wf(),
        old(loc).depth >= 2,
        old(loc).width == old(loc).height,
        2 <= old(loc).width <= i32::MAX,
        crate::map::rows_dims(seeded@, old(loc).width as int, old(loc).width as int),
        forall|x: int, y: int| 0 <= x < old(loc).width && 0 <= y < old(loc).width
            && (x == 0 || y == 0 || x == old(loc).width - 1 || y == old(loc).width - 1) ==> !#[trigger] seeded@[y]@[x],
    ensures
        final(loc).wf(),
        final(loc).name == old(loc).name,
        final(loc).width == old(loc).width,
        final(loc).height == old(loc).height,
        final(loc).depth == old(loc).depth,
        final(loc).location_type == old(loc).location_type,
        final(loc).levels@ == old(loc).levels@.update(1, final(loc).levels@[1]),
        exists|cave0: Level, best: Seq<(i32, i32)>, sorted: Seq<(i32, i32)>| #[trigger] cave_plan_ok(old(loc).levels@[0], natural,
            old(loc).width as int, cave_steps(crate::editor::rows_of(seeded@), old(loc).width as int, CAVE_SMOOTH_PASSES as nat),
            cave0, best, sorted, final(loc).levels@[1], plan.entrances@, plan.chests@),
{
    let size = loc.width;
    let ghost g5 = cave_steps(crate::editor::rows_of(seeded@), size as int, CAVE_SMOOTH_PASSES as nat);
    let cells = smooth_cave_cells(seeded, size);
    let mut cave = floor_level(&cells, size);
    let ghost cave0 = cave;
    let ghost old_levels = loc.levels@;
    let (best, Ghost(lab), Ghost(root)) = largest_labelled(&cave);
    proof {
        if has_walkable(cave0) {
            assert(largest_component(cave0, lab, root));
        }
    }
    if best.len() < 20 {
        loc.levels.set(1, cave);
        let plan = CaveSublevelPlan { entrances: Vec::new(), chests: Vec::new() };
        assert(cave_plan_ok(old_levels[0], natural, size as int, g5, cave0, best@, Seq::empty(), loc.levels@[1], plan.entrances@, plan.chests@));
        return plan;
    }
    proof {
        assert(loc.levels@[0] == old_levels[0]);
        assert(crate::galaxy::level_fits(loc.levels@[0], loc.width, loc.height));
    }
    let cands = collect_entrance_cands(&loc.levels[0], &best, size as i32, natural);
    let sorted = sort_positions(cands);
    let count = if CAVE_ENTRANCES < sorted.len() { CAVE_ENTRANCES } else { sorted.len() };
    if count == 0 {
        loc.levels.set(1, cave);
        let plan = CaveSublevelPlan { entrances: Vec::new(), chests: Vec::new() };
        assert(cave_plan_ok(old_levels[0], natural, size as int, g5, cave0, best@, sorted@, loc.levels@[1], plan.entrances@, plan.chests@));
        return plan;
    }
    let step = sorted.len() / count;
    proof {
        lemma_spaced_fits(sorted@.len() as int, count as int);
    }
    let entrances = pick_spaced(&sorted, count, step);
    proof {
        assert forall|i: int| 0 <= i < entrances@.len() implies i32::MIN < (#[trigger] entrances@[i]).0 < i32::MAX
            && i32::MIN < entrances@[i].1 < i32::MAX by {
            let e = entrances@[i];
            assert(e == sorted@[i * step as int]);
            assert(0 <= i * step <= (count - 1) * step) by (nonlinear_arith)
                requires
                    0 <= i < count,
                    0 <= step,
            ;
            assert(sorted@.contains(e));
            vstd::seq_lib::to_multiset_contains(sorted@, e);
            vstd::seq_lib::to_multiset_contains(cands@, e);
            lemma_entrance_cands_inside(old_levels[0], best@, size as int, natural, e);
        }
    }
    clear_entrances(&mut cave, &entrances);
    let chest_c = collect_chest_cands(&best, &entrances, size as i32);
    let q = chest_c.len() / 80;
    let chest_count: usize = if q < 2 { 2 } else if q > 6 { 6 } else { q };
    let chest_step = (if chest_c.len() > 1 { chest_c.len() } else { 1 }) / chest_count;
    let n = if chest_count < chest_c.len() { chest_count } else { chest_c.len() };
    proof {
        let len = chest_c@.len() as int;
        let m: int = if len > 1 { len } else { 1 };
        if chest_count <= len {
            assert(m == len);
            assert(chest_step == len / (chest_count as int));
            lemma_spaced_fits(len, chest_count as int);
            assert(n == chest_count);
            assert(n > 0 ==> (n - 1) * chest_step < len);
        } else {
            assert(n == len);
            if n > 0 {
                assert(m < chest_count);
                vstd::arithmetic::div_mod::lemma_basic_div(m, chest_count as int);
                assert(chest_step == 0);
                assert((n - 1) * chest_step == 0) by (nonlinear_arith)
                    requires
                        chest_step == 0,
                ;
            }
        }
    }
    let chests = pick_spaced(&chest_c, n, chest_step);
    loc.levels.set(1, cave);
    let plan = CaveSublevelPlan { entrances, chests };
    assert(cave_plan_ok(old_levels[0], natural, size as int, g5, cave0, best@, sorted@, loc.levels@[1], plan.entrances@, plan.chests@));
    plan
}

/// Carves the cave under a planet from the automaton's seeded grid (rock on its rim): the
/// automaton's passes give floor and rock, and when its largest region has at least 20 cells,
/// up to three entrances evenly spaced through the region's cells under solid surface ground
/// (in order of x, then y) get the rock around them cleared, and chests are spread through the
/// rest of the region. Returns the entrances and chests for their objects to be placed.
#[verifier::spinoff_prover]
pub fn generate_cave_sublevel(loc: &mut crate::galaxy::Location, seeded: Vec<Vec<bool>>) -> (plan: CaveSublevelPlan)
    requires
        old(loc).wf(),
        old(loc).depth >= 2,
        old(loc).width == old(loc).height,
        2 <= old(loc).width <= i32::MAX,
        crate::map::rows_dims(seeded@, old(loc).width as int, old(loc).width as int),
        forall|x: int, y: int| 0 <= x < old(loc).width && 0 <= y < old(loc).width
            && (x == 0 || y == 0 || x == old(loc).width - 1 || y == old(loc).width - 1) ==> !#[trigger] seeded@[y]@[x],
    ensures
        final(loc).wf(),
        final(loc).name == old(loc).name,
        final(loc).width == old(loc).width,
        final(loc).height == old(loc).height,
        final(loc).depth == old(loc).depth,
        final(loc).location_type == old(loc).location_type,
        final(loc).levels@ == old(loc).levels@.update(1, final(loc).levels@[1]),
        exists|cave0: Level, best: Seq<(i32, i32)>, sorted: Seq<(i32, i32)>| #[trigger] cave_plan_ok(old(loc).levels@[0], false,
            old(loc).width as int, cave_steps(crate::editor::rows_of(seeded@), old(loc).width as int, CAVE_SMOOTH_PASSES as nat),
            cave0, best, sorted, final(loc).levels@[1], plan.entrances@, plan.chests@),
{
    cave_sublevel_with(loc, seeded, false)
}

} // verus!
