//! The stacked tile world of the classic mode: a surface over cavern levels.
use vstd::prelude::*;
use rand::rngs::{StdRng, ThreadRng};
use crate::components::{Position, Tile, TileType};
use crate::rng::{std_range_i32, std_range_usize, std_ratio, thread_range_usize, thread_rng};

verus! {

pub struct TileMap {
    pub tiles: Vec<Vec<Vec<Tile>>>,
    pub width: usize,
    pub height: usize,
    pub depth: usize,
}

/// `depth` levels of `height` rows of `width` tiles.
pub open spec fn grid3_dims(tiles: Seq<Vec<Vec<Tile>>>, width: int, height: int, depth: int) -> bool {
    &&& tiles.len() == depth
    &&& forall|z: int| 0 <= z < depth ==> #[trigger] tiles[z]@.len() == height
    &&& forall|z: int, y: int| 0 <= z < depth && 0 <= y < height ==> #[trigger] tiles[z]@[y]@.len() == width
}

/// `height` rows of `width` tiles.
pub open spec fn rows_dims<T>(rows: Seq<Vec<T>>, width: int, height: int) -> bool {
    &&& rows.len() == height
    &&& forall|y: int| 0 <= y < height ==> #[trigger] rows[y]@.len() == width
}

/// Tile type of the base world at depth `y` below a surface at row `surface`.
pub open spec fn base_tile_type(y: int, surface: int) -> TileType {
    if y < surface {
        TileType::Wall
    } else if y == surface {
        TileType::Grass
    } else if y < surface + 5 {
        TileType::Sand
    } else {
        TileType::Floor
    }
}

/// Each changed tile lies in rows `[y0, y1)` and columns `[x0, x1)` and became `to`.
pub open spec fn changed_only_to(old_rows: Seq<Vec<Tile>>, new_rows: Seq<Vec<Tile>>, width: int, height: int, x0: int, x1: int, y0: int, y1: int, to: Tile) -> bool {
    forall|x: int, y: int| 0 <= x < width && 0 <= y < height ==> {
        ||| #[trigger] new_rows[y]@[x] == old_rows[y]@[x]
        ||| (x0 <= x < x1 && y0 <= y < y1 && new_rows[y]@[x] == to)
    }
}

impl TileMap {
    pub open spec fn wf(&self) -> bool {
        grid3_dims(self.tiles@, self.width as int, self.height as int, self.depth as int)
    }

    pub open spec fn in_range(&self, x: int, y: int, z: int) -> bool {
        0 <= x < self.width && 0 <= y < self.height && 0 <= z < self.depth
    }

    pub open spec fn tile(&self, x: int, y: int, z: int) -> Tile {
        self.tiles@[z]@[y]@[x]
    }

    pub fn get_tile(&self, x: i32, y: i32, z: usize) -> (t: Option<&Tile>)
        requires
            self.wf(),
        ensures
            t is Some <==> self.in_range(x as int, y as int, z as int),
            t matches Some(t) ==> *t == self.tile(x as int, y as int, z as int),
    {
        if x < 0 || y < 0 || z >= self.depth {
            return None;
        }
        let x = x as usize;
        let y = y as usize;
        if x >= self.width || y >= self.height {
            return None;
        }
        Some(&self.tiles[z][y][x])
    }

    pub fn get_tile_mut(&mut self, x: i32, y: i32, z: usize) -> (t: Option<&mut Tile>)
        requires
            old(self).wf(),
        ensures
            t is Some <==> old(self).in_range(x as int, y as int, z as int),
            t is None ==> *final(self) == *old(self),
            t matches Some(t) ==> {
                &&& *t == old(self).tile(x as int, y as int, z as int)
                &&& final(self).width == old(self).width
                &&& final(self).height == old(self).height
                &&& final(self).depth == old(self).depth
                &&& final(self).tiles@.len() == old(self).tiles@.len()
                &&& forall|z2: int| 0 <= z2 < old(self).depth && z2 != z ==> #[trigger] final(self).tiles@[z2] == old(self).tiles@[z2]
                &&& final(self).tiles@[z as int]@ == old(self).tiles@[z as int]@.update(
                    y as int,
                    final(self).tiles@[z as int]@[y as int],
                )
                &&& final(self).tiles@[z as int]@[y as int]@ == old(self).tiles@[z as int]@[y as int]@.update(
                    x as int,
                    *final(t),
                )
            },
    {
        if x < 0 || y < 0 || z >= self.depth {
            return None;
        }
        let x = x as usize;
        let y = y as usize;
        if x >= self.width || y >= self.height {
            return None;
        }
        Some(&mut self.tiles[z][y][x])
    }
}

} // verus!

verus! {

/// Number of live cells in the 3x3 block centered on `(x, y)`.
pub open spec fn block_count(grid: Seq<Vec<bool>>, x: int, y: int) -> int {
    (if grid[y - 1]@[x - 1] { 1int } else { 0 }) + (if grid[y - 1]@[x] { 1int } else { 0 }) + (if grid[y - 1]@[x + 1] { 1int } else { 0 })
        + (if grid[y]@[x - 1] { 1int } else { 0 }) + (if grid[y]@[x] { 1int } else { 0 }) + (if grid[y]@[x + 1] { 1int } else { 0 })
        + (if grid[y + 1]@[x - 1] { 1int } else { 0 }) + (if grid[y + 1]@[x] { 1int } else { 0 }) + (if grid[y + 1]@[x + 1] { 1int } else { 0 })
}

/// A cell survives smoothing when it is off the border and the majority (more than four)
/// of its 3x3 block is live.
pub open spec fn smoothed_cell(grid: Seq<Vec<bool>>, width: int, height: int, x: int, y: int) -> bool {
    1 <= x < width - 1 && 1 <= y < height - 1 && block_count(grid, x, y) > 4
}

pub(crate) fn bool_rows(width: usize, height: usize, fill: bool) -> (rows: Vec<Vec<bool>>)
    ensures
        rows_dims(rows@, width as int, height as int),
        forall|x: int, y: int| 0 <= x < width && 0 <= y < height ==> #[trigger] rows@[y]@[x] == fill,
{
    let mut rows: Vec<Vec<bool>> = Vec::new();
    let mut j: usize = 0;
    while j < height
        invariant
            j <= height,
            rows_dims(rows@, width as int, j as int),
            forall|x: int, y: int| 0 <= x < width && 0 <= y < j ==> #[trigger] rows@[y]@[x] == fill,
        decreases height - j,
    {
        let mut row: Vec<bool> = Vec::new();
        let mut i: usize = 0;
        while i < width
            invariant
                i <= width,
                row@.len() == i,
                forall|x: int| 0 <= x < i ==> row@[x] == fill,
            decreases width - i,
        {
            row.push(fill);
            i = i + 1;
        }
        rows.push(row);
        j = j + 1;
    }
    rows
}

fn tile_rows(width: usize, height: usize, fill: Tile) -> (rows: Vec<Vec<Tile>>)
    ensures
        rows_dims(rows@, width as int, height as int),
        forall|x: int, y: int| 0 <= x < width && 0 <= y < height ==> #[trigger] rows@[y]@[x] == fill,
{
    let mut rows: Vec<Vec<Tile>> = Vec::new();
    let mut j: usize = 0;
    while j < height
        invariant
            j <= height,
            rows_dims(rows@, width as int, j as int),
            forall|x: int, y: int| 0 <= x < width && 0 <= y < j ==> #[trigger] rows@[y]@[x] == fill,
        decreases height - j,
    {
        let mut row: Vec<Tile> = Vec::new();
        let mut i: usize = 0;
        while i < width
            invariant
                i <= width,
                row@.len() == i,
                forall|x: int| 0 <= x < i ==> row@[x] == fill,
            decreases width - i,
        {
            row.push(fill);
            i = i + 1;
        }
        rows.push(row);
        j = j + 1;
    }
    rows
}

impl TileMap {
    /// Solid rock above each column's surface; grass on it, then sand for five rows, then floor.
    pub fn create_base_world(width: usize, height: usize, surface_height: &[usize]) -> (tiles: Vec<Vec<Tile>>)
        requires
            surface_height@.len() >= width,
            height <= usize::MAX - 5,
        ensures
            rows_dims(tiles@, width as int, height as int),
            forall|x: int, y: int| 0 <= x < width && 0 <= y < height ==> #[trigger] tiles@[y]@[x] == Tile::new(
                base_tile_type(y, surface_height@[x] as int),
            ),
    {
        let mut tiles = tile_rows(width, height, Tile::new(TileType::Wall));
        let mut x: usize = 0;
        while x < width
            invariant
                x <= width,
                surface_height@.len() >= width,
                height <= usize::MAX - 5,
                rows_dims(tiles@, width as int, height as int),
                forall|cx: int, y: int| 0 <= cx < width && 0 <= y < height ==> #[trigger] tiles@[y]@[cx] == if cx < x {
                    Tile::new(base_tile_type(y, surface_height@[cx] as int))
                } else {
                    Tile::new(TileType::Wall)
                },
            decreases width - x,
        {
            let surface = surface_height[x];
            let mut y: usize = surface;
            while y < height
                invariant
                    x < width,
                    surface <= y,
                    surface == surface_height@[x as int],
                    surface_height@.len() >= width,
                    height <= usize::MAX - 5,
                    rows_dims(tiles@, width as int, height as int),
                    forall|cx: int, cy: int| 0 <= cx < width && 0 <= cy < height ==> #[trigger] tiles@[cy]@[cx] == if cx < x
                        || (cx == x && surface <= cy < y) {
                        Tile::new(base_tile_type(cy, surface_height@[cx] as int))
                    } else {
                        Tile::new(TileType::Wall)
                    },
                decreases height - y,
            {
                let tile_type = if y == surface {
                    TileType::Grass
                } else if y < surface + 5 {
                    TileType::Sand
                } else {
                    TileType::Floor
                };
                tiles[y][x] = Tile::new(tile_type);
                y = y + 1;
            }
            x = x + 1;
        }
        tiles
    }

    /// One smoothing step of the cave automaton.
    pub fn smooth_cave(grid: &[Vec<bool>], width: usize, height: usize) -> (next: Vec<Vec<bool>>)
        requires
            width >= 1,
            height >= 1,
            rows_dims(grid@, width as int, height as int),
        ensures
            rows_dims(next@, width as int, height as int),
            forall|x: int, y: int| 0 <= x < width && 0 <= y < height ==> #[trigger] next@[y]@[x] == smoothed_cell(
                grid@,
                width as int,
                height as int,
                x,
                y,
            ),
    {
        let mut new_grid = bool_rows(width, height, false);
        let mut y: usize = 1;
        while y < height - 1
            invariant
                1 <= y <= height || height == 1,
                width >= 1,
                height >= 1,
                rows_dims(grid@, width as int, height as int),
                rows_dims(new_grid@, width as int, height as int),
                forall|cx: int, cy: int| 0 <= cx < width && 0 <= cy < height ==> #[trigger] new_grid@[cy]@[cx] == (cy < y
                    && smoothed_cell(grid@, width as int, height as int, cx, cy)),
            decreases height - y,
        {
            let mut x: usize = 1;
            while x < width - 1
                invariant
                    1 <= y < height - 1,
                    1 <= x <= width || width == 1,
                    width >= 1,
                    rows_dims(grid@, width as int, height as int),
                    rows_dims(new_grid@, width as int, height as int),
                    forall|cx: int, cy: int| 0 <= cx < width && 0 <= cy < height ==> #[trigger] new_grid@[cy]@[cx] == ((cy < y
                        || (cy == y && cx < x)) && smoothed_cell(grid@, width as int, height as int, cx, cy)),
                decreases width - x,
            {
                let mut neighbors: u32 = 0;
                if grid[y - 1][x - 1] { neighbors = neighbors + 1; }
                if grid[y - 1][x] { neighbors = neighbors + 1; }
                if grid[y - 1][x + 1] { neighbors = neighbors + 1; }
                if grid[y][x - 1] { neighbors = neighbors + 1; }
                if grid[y][x] { neighbors = neighbors + 1; }
                if grid[y][x + 1] { neighbors = neighbors + 1; }
                if grid[y + 1][x - 1] { neighbors = neighbors + 1; }
                if grid[y + 1][x] { neighbors = neighbors + 1; }
                if grid[y + 1][x + 1] { neighbors = neighbors + 1; }
                new_grid[y][x] = neighbors > 4;
                x = x + 1;
            }
            y = y + 1;
        }
        new_grid
    }
}

} // verus!

verus! {

impl TileMap {
    /// The caves that `draws` seed: a seed on each floor tile whose draw says so, smoothed five
    /// times, then walled in away from the borders (rows `5..height - 5`, columns `3..width - 3`).
    pub fn carve_caves_with(tiles: &mut [Vec<Tile>], width: usize, height: usize, draws: &Vec<Vec<bool>>)
        requires
            rows_dims(old(tiles)@, width as int, height as int),
            rows_dims(draws@, width as int, height as int),
            width >= 3,
            height >= 5,
        ensures
            rows_dims(final(tiles)@, width as int, height as int),
            forall|x: int, y: int| 0 <= x < width && 0 <= y < height ==> #[trigger] final(tiles)@[y]@[x]
                == if 3 <= x < width - 3 && 5 <= y < height - 5
                    && smooth_times(cave_seeds(old(tiles)@, draws@, width as int, height as int), width as int, height as int, 5)[y][x] {
                    Tile::new(TileType::Wall)
                } else {
                    old(tiles)@[y]@[x]
                },
    {
        let ghost w = width as int;
        let ghost h = height as int;
        let ghost orig = tiles@;
        let mut cave_map = bool_rows(width, height, false);
        let mut y: usize = 0;
        while y < height
            invariant
                y <= height,
                w == width, h == height,
                tiles@ == orig,
                rows_dims(tiles@, w, h),
                rows_dims(draws@, w, h),
                rows_dims(cave_map@, w, h),
                forall|cx: int, cy: int| 0 <= cx < w && 0 <= cy < h ==> #[trigger] cave_map@[cy]@[cx]
                    == (cy < y && cave_seeds(orig, draws@, w, h)[cy][cx]),
            decreases height - y,
        {
            let mut x: usize = 0;
            while x < width
                invariant
                    y < height,
                    x <= width,
                    w == width, h == height,
                    tiles@ == orig,
                    rows_dims(tiles@, w, h),
                    rows_dims(draws@, w, h),
                    rows_dims(cave_map@, w, h),
                    forall|cx: int, cy: int| 0 <= cx < w && 0 <= cy < h ==> #[trigger] cave_map@[cy]@[cx]
                        == ((cy < y || (cy == y && cx < x)) && cave_seeds(orig, draws@, w, h)[cy][cx]),
                decreases width - x,
            {
                let seed = draws[y][x] && tiles[y][x].tile_type == TileType::Floor;
                cave_map[y][x] = seed;
                x = x + 1;
            }
            y = y + 1;
        }
        let mut pass: usize = 0;
        while pass < 5
            invariant
                width >= 3,
                height >= 5,
                w == width, h == height,
                pass <= 5,
                rows_dims(cave_map@, w, h),
                rows_dims(tiles@, w, h),
                tiles@ == orig,
                forall|cx: int, cy: int| 0 <= cx < w && 0 <= cy < h ==> #[trigger] cave_map@[cy]@[cx]
                    == smooth_times(cave_seeds(orig, draws@, w, h), w, h, pass as nat)[cy][cx],
            decreases 5 - pass,
        {
            let next = Self::smooth_cave(&cave_map, width, height);
            proof {
                let g = smooth_times(cave_seeds(orig, draws@, w, h), w, h, pass as nat);
                assert forall|cx: int, cy: int| 0 <= cx < w && 0 <= cy < h implies #[trigger] next@[cy]@[cx]
                    == smooth_times(cave_seeds(orig, draws@, w, h), w, h, (pass + 1) as nat)[cy][cx] by {
                    if 1 <= cx < w - 1 && 1 <= cy < h - 1 {
                        assert(block_count(cave_map@, cx, cy) == crate::locations::planet_gen::block9(g, cx, cy)) by {
                            assert(cave_map@[cy - 1]@[cx - 1] == g[cy - 1][cx - 1]);
                            assert(cave_map@[cy - 1]@[cx] == g[cy - 1][cx]);
                            assert(cave_map@[cy - 1]@[cx + 1] == g[cy - 1][cx + 1]);
                            assert(cave_map@[cy]@[cx - 1] == g[cy][cx - 1]);
                            assert(cave_map@[cy]@[cx] == g[cy][cx]);
                            assert(cave_map@[cy]@[cx + 1] == g[cy][cx + 1]);
                            assert(cave_map@[cy + 1]@[cx - 1] == g[cy + 1][cx - 1]);
                            assert(cave_map@[cy + 1]@[cx] == g[cy + 1][cx]);
                            assert(cave_map@[cy + 1]@[cx + 1] == g[cy + 1][cx + 1]);
                        }
                    }
                }
            }
            cave_map = next;
            pass = pass + 1;
        }
        let ghost g5 = smooth_times(cave_seeds(orig, draws@, w, h), w, h, 5);
        let mut y: usize = 5;
        while y < height - 5
            invariant
                5 <= y,
                height >= 5,
                width >= 3,
                w == width, h == height,
                y <= height - 5 || y == 5,
                rows_dims(tiles@, w, h),
                rows_dims(cave_map@, w, h),
                forall|cx: int, cy: int| 0 <= cx < w && 0 <= cy < h ==> #[trigger] cave_map@[cy]@[cx] == g5[cy][cx],
                forall|cx: int, cy: int| 0 <= cx < w && 0 <= cy < h ==> #[trigger] tiles@[cy]@[cx]
                    == if 3 <= cx < w - 3 && 5 <= cy < y && g5[cy][cx] { Tile::new(TileType::Wall) } else { orig[cy]@[cx] },
            decreases height - y,
        {
            let mut x: usize = 3;
            while x < width - 3
                invariant
                    5 <= y < height - 5,
                    3 <= x,
                    width >= 3,
                    w == width, h == height,
                    x <= width - 3 || x == 3,
                    rows_dims(tiles@, w, h),
                    rows_dims(cave_map@, w, h),
                    forall|cx: int, cy: int| 0 <= cx < w && 0 <= cy < h ==> #[trigger] cave_map@[cy]@[cx] == g5[cy][cx],
                    forall|cx: int, cy: int| 0 <= cx < w && 0 <= cy < h ==> #[trigger] tiles@[cy]@[cx]
                        == if 3 <= cx < w - 3 && 5 <= cy && (cy < y || (cy == y && cx < x)) && g5[cy][cx] { Tile::new(TileType::Wall) } else { orig[cy]@[cx] },
                decreases width - x,
            {
                if cave_map[y][x] {
                    tiles[y][x] = Tile::new(TileType::Wall);
                }
                x = x + 1;
            }
            y = y + 1;
        }
    }

    /// Scatter cave seeds over floor (12% chance each), smooth them five times, and wall in
    /// the resulting caves away from the borders. Whatever the draws, only tiles of rows
    /// `5..height - 5` and columns `3..width - 3` change, and each becomes wall.
    pub fn carve_caves(tiles: &mut [Vec<Tile>], width: usize, height: usize, rng: &mut StdRng)
        requires
            rows_dims(old(tiles)@, width as int, height as int),
            width >= 3,
            height >= 5,
        ensures
            rows_dims(final(tiles)@, width as int, height as int),
            changed_only_to(old(tiles)@, final(tiles)@, width as int, height as int, 3, width - 3, 5, height - 5, Tile::new(TileType::Wall)),
            exists|draws: Seq<Vec<bool>>| #[trigger] caves_carved(old(tiles)@, final(tiles)@, width as int, height as int, draws),
    {
        let mut draws: Vec<Vec<bool>> = Vec::new();
        let mut y: usize = 0;
        while y < height
            invariant
                y <= height,
                rows_dims(draws@, width as int, y as int),
            decreases height - y,
        {
            let mut row: Vec<bool> = Vec::new();
            let mut x: usize = 0;
            while x < width
                invariant
                    x <= width,
                    row@.len() == x,
                decreases width - x,
            {
                row.push(std_ratio(rng, 12, 100));
                x = x + 1;
            }
            draws.push(row);
            y = y + 1;
        }
        let ghost orig = tiles@;
        Self::carve_caves_with(tiles, width, height, &draws);
        proof {
            assert(caves_carved(orig, tiles@, width as int, height as int, draws@));
        }
    }
}

} // verus!

verus! {

/// The cave seeds: floor tiles whose draw says so.
pub open spec fn cave_seeds(tiles: Seq<Vec<Tile>>, draws: Seq<Vec<bool>>, w: int, h: int) -> Seq<Seq<bool>> {
    Seq::new(h as nat, |y: int| Seq::new(w as nat, |x: int| draws[y]@[x] && tiles[y]@[x].tile_type == TileType::Floor))
}

/// `n` smoothing steps on a `w` by `h` grid: an inner cell is live when most of its 3x3 block is.
pub open spec fn smooth_times(g: Seq<Seq<bool>>, w: int, h: int, n: nat) -> Seq<Seq<bool>>
    decreases n,
{
    if n == 0 {
        g
    } else {
        let p = smooth_times(g, w, h, (n - 1) as nat);
        Seq::new(h as nat, |y: int| Seq::new(w as nat, |x: int| 1 <= x < w - 1 && 1 <= y < h - 1
            && crate::locations::planet_gen::block9(p, x, y) > 4))
    }
}

/// `after` is `before` with the caves that `draws` seed walled in.
pub open spec fn caves_carved(before: Seq<Vec<Tile>>, after: Seq<Vec<Tile>>, w: int, h: int, draws: Seq<Vec<bool>>) -> bool {
    &&& rows_dims(draws, w, h)
    &&& forall|x: int, y: int| 0 <= x < w && 0 <= y < h ==> #[trigger] after[y]@[x]
        == if 3 <= x < w - 3 && 5 <= y < h - 5 && smooth_times(cave_seeds(before, draws, w, h), w, h, 5)[y][x] {
            Tile::new(TileType::Wall)
        } else {
            before[y]@[x]
        }
}

/// Each changed tile is the surface tile of an inner column that was grass and became a tree
/// (a wall tile).
pub open spec fn trees_only(old_rows: Seq<Vec<Tile>>, new_rows: Seq<Vec<Tile>>, width: int, height: int, surface_height: Seq<usize>) -> bool {
    forall|x: int, y: int| 0 <= x < width && 0 <= y < height ==> {
        ||| #[trigger] new_rows[y]@[x] == old_rows[y]@[x]
        ||| (2 <= x < width - 2 && y == surface_height[x] && old_rows[y]@[x].tile_type == TileType::Grass
            && new_rows[y]@[x] == Tile::new(TileType::Wall))
    }
}

/// Each changed tile was grass or sand and became water.
pub open spec fn flooded_only(old_rows: Seq<Vec<Tile>>, new_rows: Seq<Vec<Tile>>, width: int, height: int) -> bool {
    forall|x: int, y: int| 0 <= x < width && 0 <= y < height ==> {
        ||| #[trigger] new_rows[y]@[x] == old_rows[y]@[x]
        ||| ((old_rows[y]@[x].tile_type == TileType::Grass || old_rows[y]@[x].tile_type == TileType::Sand)
            && new_rows[y]@[x] == Tile::new(TileType::Water))
    }
}

/// Each changed tile became a staircase.
pub open spec fn stairs_only(old_tiles: Seq<Vec<Vec<Tile>>>, new_tiles: Seq<Vec<Vec<Tile>>>, width: int, height: int, depth: int) -> bool {
    forall|x: int, y: int, z: int| 0 <= x < width && 0 <= y < height && 0 <= z < depth ==> {
        ||| #[trigger] new_tiles[z]@[y]@[x] == old_tiles[z]@[y]@[x]
        ||| new_tiles[z]@[y]@[x] == Tile::new(TileType::StairsDown)
        ||| new_tiles[z]@[y]@[x] == Tile::new(TileType::StairsUp)
    }
}

/// Level `z` has a down-staircase over an up-staircase on level `z + 1`, on an interior tile.
pub open spec fn stair_pair(t: Seq<Vec<Vec<Tile>>>, w: int, h: int, z: int) -> bool {
    exists|x: int, y: int| 1 <= x < w - 1 && 1 <= y < h - 1 && #[trigger] t[z]@[y]@[x].tile_type == TileType::StairsDown
        && t[z + 1]@[y]@[x].tile_type == TileType::StairsUp
}

/// Level `z` is linked to the one below, or has no interior floor to link from.
pub open spec fn linked_down(t: Seq<Vec<Vec<Tile>>>, w: int, h: int, z: int) -> bool {
    stair_pair(t, w, h, z) || forall|x: int, y: int| 1 <= x < w - 1 && 1 <= y < h - 1 ==> #[trigger] t[z]@[y]@[x].tile_type != TileType::Floor
}

/// Linking level `z` changed only floor of level `z` into down-stairs and tiles of level `z + 1`
/// into up-stairs.
pub open spec fn level_step(before: Seq<Vec<Vec<Tile>>>, after: Seq<Vec<Vec<Tile>>>, w: int, h: int, d: int, z: int) -> bool {
    forall|z2: int, y: int, x: int| 0 <= z2 < d && 0 <= y < h && 0 <= x < w ==> {
        ||| #[trigger] after[z2]@[y]@[x] == before[z2]@[y]@[x]
        ||| (z2 == z && before[z2]@[y]@[x].tile_type == TileType::Floor && after[z2]@[y]@[x].tile_type == TileType::StairsDown)
        ||| (z2 == z + 1 && after[z2]@[y]@[x].tile_type == TileType::StairsUp)
    }
}

proof fn lemma_pair_set(orig: Seq<Vec<Vec<Tile>>>, start: Seq<Vec<Vec<Tile>>>, before: Seq<Vec<Vec<Tile>>>, after: Seq<Vec<Vec<Tile>>>,
    w: int, h: int, d: int, z: int, y: int, x: int)
    requires
        grid3_dims(before, w, h, d),
        stairs_only(orig, before, w, h, d),
        level_step(start, before, w, h, d, z),
        0 <= z < d - 1,
        1 <= y < h - 1,
        1 <= x < w - 1,
        before[z]@[y]@[x].tile_type == TileType::Floor,
        grid3_dims(after, w, h, d),
        forall|z2: int, yy: int, xx: int| 0 <= z2 < d && 0 <= yy < h && 0 <= xx < w ==> #[trigger] after[z2]@[yy]@[xx]
            == if z2 == z && yy == y && xx == x { Tile::new(TileType::StairsDown) }
            else if z2 == z + 1 && yy == y && xx == x { Tile::new(TileType::StairsUp) }
            else { before[z2]@[yy]@[xx] },
    ensures
        grid3_dims(after, w, h, d),
        stairs_only(orig, after, w, h, d),
        level_step(start, after, w, h, d, z),
        stair_pair(after, w, h, z),
{
    assert(after[z]@[y]@[x].tile_type == TileType::StairsDown);
    assert(after[z + 1]@[y]@[x].tile_type == TileType::StairsUp);
    assert forall|z2: int, yy: int, xx: int| 0 <= z2 < d && 0 <= yy < h && 0 <= xx < w implies {
        ||| #[trigger] after[z2]@[yy]@[xx] == before[z2]@[yy]@[xx]
        ||| (z2 == z && xx == x && yy == y)
        ||| (z2 == z + 1 && xx == x && yy == y)
    } by {}
    assert forall|z2: int, yy: int, xx: int| 0 <= z2 < d && 0 <= yy < h && 0 <= xx < w implies {
        ||| #[trigger] after[z2]@[yy]@[xx] == start[z2]@[yy]@[xx]
        ||| (z2 == z && start[z2]@[yy]@[xx].tile_type == TileType::Floor && after[z2]@[yy]@[xx].tile_type == TileType::StairsDown)
        ||| (z2 == z + 1 && after[z2]@[yy]@[xx].tile_type == TileType::StairsUp)
    } by {
        if z2 == z && xx == x && yy == y {
            assert(before[z2]@[yy]@[xx] == start[z2]@[yy]@[xx] || start[z2]@[yy]@[xx].tile_type == TileType::Floor);
        }
    }
    assert forall|z2: int, yy: int, xx: int| 0 <= z2 < d && 0 <= yy < h && 0 <= xx < w implies {
        ||| #[trigger] after[z2]@[yy]@[xx] == orig[z2]@[yy]@[xx]
        ||| after[z2]@[yy]@[xx] == Tile::new(TileType::StairsDown)
        ||| after[z2]@[yy]@[xx] == Tile::new(TileType::StairsUp)
    } by {}
}

/// Linking level `z` keeps every earlier level linked.
proof fn lemma_linked_kept(before: Seq<Vec<Vec<Tile>>>, after: Seq<Vec<Vec<Tile>>>, w: int, h: int, d: int, z: int, z2: int)
    requires
        level_step(before, after, w, h, d, z),
        grid3_dims(before, w, h, d),
        0 <= z2 < z < d - 1,
        linked_down(before, w, h, z2),
    ensures
        linked_down(after, w, h, z2),
{
    if stair_pair(before, w, h, z2) {
        let (x, y) = choose|x: int, y: int| 1 <= x < w - 1 && 1 <= y < h - 1 && #[trigger] before[z2]@[y]@[x].tile_type == TileType::StairsDown
            && before[z2 + 1]@[y]@[x].tile_type == TileType::StairsUp;
        assert(after[z2]@[y]@[x] == before[z2]@[y]@[x]);
        assert(after[z2 + 1]@[y]@[x] == before[z2 + 1]@[y]@[x] || after[z2 + 1]@[y]@[x].tile_type == TileType::StairsUp
            || after[z2 + 1]@[y]@[x].tile_type == TileType::StairsDown);
        assert(after[z2 + 1]@[y]@[x].tile_type == TileType::StairsUp);
        assert(stair_pair(after, w, h, z2));
    } else {
        assert forall|x: int, y: int| 1 <= x < w - 1 && 1 <= y < h - 1 implies #[trigger] after[z2]@[y]@[x].tile_type != TileType::Floor by {
            assert(after[z2]@[y]@[x] == before[z2]@[y]@[x]);
        }
    }
}

/// An extra up-staircase on floor keeps everything linked.
proof fn lemma_extra_up(orig: Seq<Vec<Vec<Tile>>>, before: Seq<Vec<Vec<Tile>>>, after: Seq<Vec<Vec<Tile>>>, w: int, h: int, d: int,
    z: int, y: int, x: int)
    requires
        grid3_dims(before, w, h, d),
        stairs_only(orig, before, w, h, d),
        forall|z2: int| 0 <= z2 < d - 1 ==> #[trigger] linked_down(before, w, h, z2),
        0 <= z < d,
        1 <= y < h - 1,
        1 <= x < w - 1,
        before[z]@[y]@[x].tile_type == TileType::Floor,
        grid3_dims(after, w, h, d),
        forall|z2: int, yy: int, xx: int| 0 <= z2 < d && 0 <= yy < h && 0 <= xx < w ==> #[trigger] after[z2]@[yy]@[xx]
            == if z2 == z && yy == y && xx == x { Tile::new(TileType::StairsUp) } else { before[z2]@[yy]@[xx] },
    ensures
        grid3_dims(after, w, h, d),
        stairs_only(orig, after, w, h, d),
        forall|z2: int| 0 <= z2 < d - 1 ==> #[trigger] linked_down(after, w, h, z2),
{
    assert forall|z2: int, yy: int, xx: int| 0 <= z2 < d && 0 <= yy < h && 0 <= xx < w implies {
        ||| #[trigger] after[z2]@[yy]@[xx] == orig[z2]@[yy]@[xx]
        ||| after[z2]@[yy]@[xx] == Tile::new(TileType::StairsDown)
        ||| after[z2]@[yy]@[xx] == Tile::new(TileType::StairsUp)
    } by {
        if !(z2 == z && yy == y && xx == x) {
            assert(after[z2]@[yy]@[xx] == before[z2]@[yy]@[xx]);
        }
    }
    assert forall|z2: int| 0 <= z2 < d - 1 implies #[trigger] linked_down(after, w, h, z2) by {
        assert(linked_down(before, w, h, z2));
        if stair_pair(before, w, h, z2) {
            let (px, py) = choose|px: int, py: int| 1 <= px < w - 1 && 1 <= py < h - 1 && #[trigger] before[z2]@[py]@[px].tile_type == TileType::StairsDown
                && before[z2 + 1]@[py]@[px].tile_type == TileType::StairsUp;
            assert(after[z2]@[py]@[px] == before[z2]@[py]@[px]);
            assert(after[z2 + 1]@[py]@[px].tile_type == TileType::StairsUp);
            assert(stair_pair(after, w, h, z2));
        } else {
            assert forall|cx: int, cy: int| 1 <= cx < w - 1 && 1 <= cy < h - 1 implies #[trigger] after[z2]@[cy]@[cx].tile_type != TileType::Floor by {
                assert(before[z2]@[cy]@[cx].tile_type != TileType::Floor);
            }
        }
    }
}

/// `t`, flooded when it lies in a lake and is grass or sand.
pub open spec fn lake_tile(t: Tile, lake: bool) -> Tile {
    if lake && (t.tile_type == TileType::Grass || t.tile_type == TileType::Sand) { Tile::new(TileType::Water) } else { t }
}

/// The column a lake's column `c` lands on: the last column when it runs off the map.
pub open spec fn clamp_col(w: int, c: int) -> int {
    if c < w - 1 { c } else { w - 1 }
}

/// The tile `(x, y)` is the lake's tile `dy` below the surface in its column `dx`, and comes
/// before `(ndx, ndy)` (column by column).
pub open spec fn lake_cell_at(w: int, h: int, surface: Seq<usize>, lake: (usize, usize, usize), ndx: int, ndy: int,
    dx: int, dy: int, x: int, y: int) -> bool {
    &&& 0 <= dx < lake.1
    &&& 0 <= dy < lake.2
    &&& (dx < ndx || (dx == ndx && dy < ndy))
    &&& x == clamp_col(w, lake.0 + dx)
    &&& y == (if surface[x] + dy < h - 1 { surface[x] + dy } else { h - 1 })
}

pub open spec fn in_lake_part(w: int, h: int, surface: Seq<usize>, lake: (usize, usize, usize), ndx: int, ndy: int, x: int, y: int) -> bool {
    exists|dx: int, dy: int| #[trigger] lake_cell_at(w, h, surface, lake, ndx, ndy, dx, dy, x, y)
}

/// `(x, y)` is a tile of the lake.
pub open spec fn in_lake(w: int, h: int, surface: Seq<usize>, lake: (usize, usize, usize), x: int, y: int) -> bool {
    in_lake_part(w, h, surface, lake, lake.1 as int, 0, x, y)
}

/// `(x, y)` is a tile of one of the lakes.
pub open spec fn in_lakes(w: int, h: int, surface: Seq<usize>, lakes: Seq<(usize, usize, usize)>, x: int, y: int) -> bool
    decreases lakes.len(),
{
    if lakes.len() == 0 { false } else { in_lakes(w, h, surface, lakes.drop_last(), x, y) || in_lake(w, h, surface, lakes.last(), x, y) }
}

/// A lake starts five columns in from either side, is three to six columns wide and two to four deep.
pub open spec fn lake_fits(w: int, lake: (usize, usize, usize)) -> bool {
    5 <= lake.0 < w - 5 && 3 <= lake.1 <= 6 && 2 <= lake.2 <= 4
}

/// `after` is `before` with two to four lakes that fit dug into it.
pub open spec fn lakes_dug(before: Seq<Vec<Tile>>, after: Seq<Vec<Tile>>, w: int, h: int, surface: Seq<usize>,
    lakes: Seq<(usize, usize, usize)>) -> bool {
    &&& 2 <= lakes.len() <= 4
    &&& forall|i: int| 0 <= i < lakes.len() ==> #[trigger] lake_fits(w, lakes[i])
    &&& forall|x: int, y: int| 0 <= x < w && 0 <= y < h ==> #[trigger] after[y]@[x]
        == lake_tile(before[y]@[x], in_lakes(w, h, surface, lakes, x, y))
}

proof fn lemma_in_lakes_push(w: int, h: int, surface: Seq<usize>, lakes: Seq<(usize, usize, usize)>, l: (usize, usize, usize), x: int, y: int)
    ensures
        in_lakes(w, h, surface, lakes.push(l), x, y) == (in_lakes(w, h, surface, lakes, x, y) || in_lake(w, h, surface, l, x, y)),
{
    assert(lakes.push(l).drop_last() =~= lakes);
}

/// Column `x` gets a tree: its draw says so, and its surface tile and the two beside it are
/// grass (the left one not already a tree planted on the same row).
pub open spec fn planted(orig: Seq<Vec<Tile>>, surface: Seq<usize>, draws: Seq<bool>, x: int) -> bool
    decreases x,
{
    if x < 2 {
        false
    } else {
        let s = surface[x] as int;
        &&& draws[x - 2]
        &&& orig[s]@[x].tile_type == TileType::Grass
        &&& orig[s]@[x + 1].tile_type == TileType::Grass
        &&& orig[s]@[x - 1].tile_type == TileType::Grass
        &&& !(x - 1 >= 2 && surface[x - 1] == s && planted(orig, surface, draws, x - 1))
    }
}

/// `after` is `before` with trees planted as the per-column draws `draws` decide.
pub open spec fn trees_planted(before: Seq<Vec<Tile>>, after: Seq<Vec<Tile>>, w: int, surface: Seq<usize>, draws: Seq<bool>) -> bool {
    &&& draws.len() >= w - 4
    &&& forall|x: int, y: int| 0 <= x < w && 0 <= y < before.len() ==> #[trigger] after[y]@[x]
        == if 2 <= x < w - 2 && y == surface[x] && planted(before, surface, draws, x) { Tile::new(TileType::Wall) } else { before[y]@[x] }
}

impl TileMap {
    /// Plant trees on surface grass flanked by grass: column `x` (from 2 to `width - 3`) gets one
    /// when `draws[x - 2]` says so.
    pub fn plant_trees(tiles: &mut [Vec<Tile>], width: usize, surface_height: &[usize], draws: &Vec<bool>)
        requires
            width >= 2,
            surface_height@.len() >= width,
            rows_dims(old(tiles)@, width as int, old(tiles)@.len() as int),
            forall|x: int| 2 <= x < width - 2 ==> #[trigger] surface_height@[x] < old(tiles)@.len(),
            draws@.len() >= width - 4,
        ensures
            rows_dims(final(tiles)@, width as int, old(tiles)@.len() as int),
            forall|x: int, y: int| 0 <= x < width && 0 <= y < old(tiles)@.len() ==> #[trigger] final(tiles)@[y]@[x]
                == if 2 <= x < width - 2 && y == surface_height@[x] && planted(old(tiles)@, surface_height@, draws@, x) {
                    Tile::new(TileType::Wall)
                } else {
                    old(tiles)@[y]@[x]
                },
    {
        let ghost orig = tiles@;
        let ghost h = tiles@.len() as int;
        let ghost w = width as int;
        let mut x: usize = 2;
        while x < width - 2
            invariant
                2 <= x,
                width >= 2,
                w == width,
                surface_height@.len() >= width,
                draws@.len() >= width - 4,
                h == tiles@.len(),
                rows_dims(tiles@, w, h),
                forall|cx: int| 2 <= cx < width - 2 ==> #[trigger] surface_height@[cx] < h,
                x <= width - 2 || x == 2,
                forall|cx: int, cy: int| 0 <= cx < w && 0 <= cy < h ==> #[trigger] tiles@[cy]@[cx]
                    == if 2 <= cx < x && cx < w - 2 && cy == surface_height@[cx] && planted(orig, surface_height@, draws@, cx) {
                        Tile::new(TileType::Wall)
                    } else {
                        orig[cy]@[cx]
                    },
            decreases width - x,
        {
            let surface = surface_height[x];
            let ghost before = tiles@;
            if draws[x - 2] && tiles[surface][x].tile_type == TileType::Grass {
                let has_space = tiles[surface][x - 1].tile_type == TileType::Grass
                    && tiles[surface][x].tile_type == TileType::Grass
                    && tiles[surface][x + 1].tile_type == TileType::Grass;
                if has_space {
                    tiles[surface][x] = Tile::new(TileType::Wall);
                }
            }
            proof {
                let xi = x as int;
                let sy = surface as int;
                assert(before[sy]@[xi] == orig[sy]@[xi]);
                assert(before[sy]@[xi + 1] == orig[sy]@[xi + 1]);
                assert(before[sy]@[xi - 1].tile_type == TileType::Grass
                    <==> (orig[sy]@[xi - 1].tile_type == TileType::Grass
                        && !(xi - 1 >= 2 && surface_height@[xi - 1] == sy && planted(orig, surface_height@, draws@, xi - 1))));
                assert(planted(orig, surface_height@, draws@, xi) == (draws@[xi - 2] && orig[sy]@[xi].tile_type == TileType::Grass
                    && orig[sy]@[xi + 1].tile_type == TileType::Grass && before[sy]@[xi - 1].tile_type == TileType::Grass));
            }
            x = x + 1;
        }
    }

    /// Plant trees (8% chance per inner column) on surface grass flanked by grass.
    pub fn place_trees(tiles: &mut [Vec<Tile>], width: usize, surface_height: &[usize], rng: &mut StdRng)
        requires
            width >= 2,
            surface_height@.len() >= width,
            rows_dims(old(tiles)@, width as int, old(tiles)@.len() as int),
            forall|x: int| 2 <= x < width - 2 ==> #[trigger] surface_height@[x] < old(tiles)@.len(),
        ensures
            rows_dims(final(tiles)@, width as int, old(tiles)@.len() as int),
            trees_only(old(tiles)@, final(tiles)@, width as int, old(tiles)@.len() as int, surface_height@),
            exists|draws: Seq<bool>| #[trigger] trees_planted(old(tiles)@, final(tiles)@, width as int, surface_height@, draws),
    {
        let mut draws: Vec<bool> = Vec::new();
        let mut x: usize = 2;
        while x < width - 2
            invariant
                2 <= x,
                width >= 2,
                x <= width - 2 || x == 2,
                draws@.len() == x - 2,
            decreases width - x,
        {
            draws.push(std_ratio(rng, 8, 100));
            x = x + 1;
        }
        let ghost orig = tiles@;
        Self::plant_trees(tiles, width, surface_height, &draws);
        proof {
            assert(trees_planted(orig, tiles@, width as int, surface_height@, draws@));
            assert forall|cx: int, cy: int| 0 <= cx < width && 0 <= cy < orig.len() implies {
                ||| #[trigger] tiles@[cy]@[cx] == orig[cy]@[cx]
                ||| (2 <= cx < width - 2 && cy == surface_height@[cx] && orig[cy]@[cx].tile_type == TileType::Grass
                    && tiles@[cy]@[cx] == Tile::new(TileType::Wall))
            } by {}
        }
    }

    /// Dig the lake `lake` (left column, width, depth) into the surface grass and sand: each of
    /// its columns, clamped to the map, floods from the surface down `depth` tiles (clamped to
    /// the bottom row).
    pub fn dig_lake(tiles: &mut [Vec<Tile>], width: usize, surface_height: &[usize], lake: (usize, usize, usize))
        requires
            width >= 1,
            surface_height@.len() >= width,
            old(tiles)@.len() >= 1,
            rows_dims(old(tiles)@, width as int, old(tiles)@.len() as int),
            forall|x: int| 0 <= x < width ==> #[trigger] surface_height@[x] <= usize::MAX - 4,
            lake.0 + lake.1 <= usize::MAX,
            lake.2 <= 4,
        ensures
            rows_dims(final(tiles)@, width as int, old(tiles)@.len() as int),
            forall|x: int, y: int| 0 <= x < width && 0 <= y < old(tiles)@.len() ==> #[trigger] final(tiles)@[y]@[x]
                == lake_tile(old(tiles)@[y]@[x], in_lake(width as int, old(tiles)@.len() as int, surface_height@, lake, x, y)),
    {
        let ghost orig = tiles@;
        let ghost w = width as int;
        let h = tiles.len();
        let (lake_x, lake_width, lake_depth) = lake;
        let mut dx: usize = 0;
        while dx < lake_width
            invariant
                width >= 1,
                w == width,
                surface_height@.len() >= width,
                h >= 1,
                h == tiles@.len(),
                lake == (lake_x, lake_width, lake_depth),
                lake_x + lake_width <= usize::MAX,
                lake_depth <= 4,
                dx <= lake_width,
                rows_dims(tiles@, w, h as int),
                forall|x: int| 0 <= x < width ==> #[trigger] surface_height@[x] <= usize::MAX - 4,
                forall|x: int, y: int| 0 <= x < w && 0 <= y < h ==> #[trigger] tiles@[y]@[x]
                    == lake_tile(orig[y]@[x], in_lake_part(w, h as int, surface_height@, lake, dx as int, 0, x, y)),
            decreases lake_width - dx,
        {
            let x = if lake_x + dx < width - 1 { lake_x + dx } else { width - 1 };
            let surface = surface_height[x];
            let mut dy: usize = 0;
            while dy < lake_depth
                invariant
                    width >= 1,
                    w == width,
                    surface_height@.len() >= width,
                    x < width,
                    x == clamp_col(w, lake_x as int + dx as int),
                    surface == surface_height@[x as int],
                    surface <= usize::MAX - 4,
                    lake == (lake_x, lake_width, lake_depth),
                    lake_depth <= 4,
                    dx < lake_width,
                    dy <= lake_depth,
                    h >= 1,
                    h == tiles@.len(),
                    rows_dims(tiles@, w, h as int),
                    forall|cx: int, cy: int| 0 <= cx < w && 0 <= cy < h ==> #[trigger] tiles@[cy]@[cx]
                        == lake_tile(orig[cy]@[cx], in_lake_part(w, h as int, surface_height@, lake, dx as int, dy as int, cx, cy)),
                decreases lake_depth - dy,
            {
                let y = if surface + dy < h - 1 { surface + dy } else { h - 1 };
                let ghost before = tiles@;
                if tiles[y][x].tile_type == TileType::Grass || tiles[y][x].tile_type == TileType::Sand {
                    tiles[y][x] = Tile::new(TileType::Water);
                }
                proof {
                    assert forall|cx: int, cy: int| 0 <= cx < w && 0 <= cy < h implies #[trigger] tiles@[cy]@[cx]
                        == lake_tile(orig[cy]@[cx], in_lake_part(w, h as int, surface_height@, lake, dx as int, dy + 1, cx, cy)) by {
                        let was = in_lake_part(w, h as int, surface_height@, lake, dx as int, dy as int, cx, cy);
                        let now = in_lake_part(w, h as int, surface_height@, lake, dx as int, dy + 1, cx, cy);
                        if cx == x && cy == y {
                            assert(lake_cell_at(w, h as int, surface_height@, lake, dx as int, dy + 1, dx as int, dy as int, cx, cy));
                        } else {
                            assert(tiles@[cy]@[cx] == before[cy]@[cx]);
                            if now {
                                let (ddx, ddy) = choose|ddx: int, ddy: int| #[trigger] lake_cell_at(w, h as int, surface_height@, lake, dx as int, dy + 1, ddx, ddy, cx, cy);
                                if ddx == dx && ddy == dy {
                                    assert(cx == x && cy == y);
                                }
                                assert(lake_cell_at(w, h as int, surface_height@, lake, dx as int, dy as int, ddx, ddy, cx, cy));
                            }
                            if was {
                                let (ddx, ddy) = choose|ddx: int, ddy: int| #[trigger] lake_cell_at(w, h as int, surface_height@, lake, dx as int, dy as int, ddx, ddy, cx, cy);
                                assert(lake_cell_at(w, h as int, surface_height@, lake, dx as int, dy + 1, ddx, ddy, cx, cy));
                            }
                        }
                    }
                }
                dy = dy + 1;
            }
            proof {
                assert forall|cx: int, cy: int| 0 <= cx < w && 0 <= cy < h implies
                    in_lake_part(w, h as int, surface_height@, lake, dx as int, lake_depth as int, cx, cy)
                    == in_lake_part(w, h as int, surface_height@, lake, dx + 1, 0, cx, cy) by {
                    let a1 = in_lake_part(w, h as int, surface_height@, lake, dx as int, lake_depth as int, cx, cy);
                    let a2 = in_lake_part(w, h as int, surface_height@, lake, dx + 1, 0, cx, cy);
                    if a1 {
                        let (ddx, ddy) = choose|ddx: int, ddy: int| #[trigger] lake_cell_at(w, h as int, surface_height@, lake, dx as int, lake_depth as int, ddx, ddy, cx, cy);
                        assert(lake_cell_at(w, h as int, surface_height@, lake, dx + 1, 0, ddx, ddy, cx, cy));
                    }
                    if a2 {
                        let (ddx, ddy) = choose|ddx: int, ddy: int| #[trigger] lake_cell_at(w, h as int, surface_height@, lake, dx + 1, 0, ddx, ddy, cx, cy);
                        assert(lake_cell_at(w, h as int, surface_height@, lake, dx as int, lake_depth as int, ddx, ddy, cx, cy));
                    }
                }
            }
            dx = dx + 1;
        }
        proof {
            assert forall|cx: int, cy: int| 0 <= cx < w && 0 <= cy < h implies
                in_lake_part(w, h as int, surface_height@, lake, lake_width as int, 0, cx, cy)
                == in_lake(w, h as int, surface_height@, lake, cx, cy) by {}
        }
    }

    /// Dig two to four small lakes into the surface grass and sand, each at a random column,
    /// three to six columns wide and two to four tiles deep.
    pub fn place_lakes(tiles: &mut [Vec<Tile>], width: usize, surface_height: &[usize], rng: &mut StdRng)
        requires
            width >= 11,
            surface_height@.len() >= width,
            old(tiles)@.len() >= 1,
            rows_dims(old(tiles)@, width as int, old(tiles)@.len() as int),
            forall|x: int| 0 <= x < width ==> #[trigger] surface_height@[x] <= usize::MAX - 4,
        ensures
            rows_dims(final(tiles)@, width as int, old(tiles)@.len() as int),
            flooded_only(old(tiles)@, final(tiles)@, width as int, old(tiles)@.len() as int),
            exists|lakes: Seq<(usize, usize, usize)>| #[trigger] lakes_dug(old(tiles)@, final(tiles)@, width as int,
                old(tiles)@.len() as int, surface_height@, lakes),
    {
        let ghost orig = tiles@;
        let h = tiles.len();
        let ghost w = width as int;
        let ghost mut lakes: Seq<(usize, usize, usize)> = Seq::empty();
        let lake_count = std_range_i32(rng, 2, 5);
        let mut lake: i32 = 0;
        proof {
            assert forall|x: int, y: int| 0 <= x < w && 0 <= y < h implies #[trigger] tiles@[y]@[x]
                == lake_tile(orig[y]@[x], in_lakes(w, h as int, surface_height@, lakes, x, y)) by {}
        }
        while lake < lake_count
            invariant
                width >= 11,
                w == width,
                surface_height@.len() >= width,
                h >= 1,
                h == tiles@.len(),
                2 <= lake_count < 5,
                0 <= lake <= lake_count,
                lakes.len() == lake,
                forall|i: int| 0 <= i < lakes.len() ==> #[trigger] lake_fits(w, lakes[i]),
                rows_dims(tiles@, width as int, h as int),
                forall|x: int| 0 <= x < width ==> #[trigger] surface_height@[x] <= usize::MAX - 4,
                forall|x: int, y: int| 0 <= x < w && 0 <= y < h ==> #[trigger] tiles@[y]@[x]
                    == lake_tile(orig[y]@[x], in_lakes(w, h as int, surface_height@, lakes, x, y)),
            decreases lake_count - lake,
        {
            let lake_x = std_range_usize(rng, 5, width - 5);
            let lake_width = std_range_usize(rng, 3, 7);
            let lake_depth = std_range_usize(rng, 2, 5);
            let ghost before = tiles@;
            Self::dig_lake(tiles, width, surface_height, (lake_x, lake_width, lake_depth));
            proof {
                let l = (lake_x, lake_width, lake_depth);
                let lakes2 = lakes.push(l);
                assert forall|x: int, y: int| 0 <= x < w && 0 <= y < h implies #[trigger] tiles@[y]@[x]
                    == lake_tile(orig[y]@[x], in_lakes(w, h as int, surface_height@, lakes2, x, y)) by {
                    assert(before[y]@[x] == lake_tile(orig[y]@[x], in_lakes(w, h as int, surface_height@, lakes, x, y)));
                    lemma_in_lakes_push(w, h as int, surface_height@, lakes, l, x, y);
                }
                assert(lake_fits(w, lakes2[lakes.len() as int]));
                assert forall|i: int| 0 <= i < lakes2.len() implies #[trigger] lake_fits(w, lakes2[i]) by {
                    if i < lakes.len() {
                        assert(lakes2[i] == lakes[i]);
                    }
                }
                lakes = lakes2;
            }
            lake = lake + 1;
        }
        proof {
            assert forall|x: int, y: int| 0 <= x < w && 0 <= y < h implies {
                ||| #[trigger] tiles@[y]@[x] == orig[y]@[x]
                ||| ((orig[y]@[x].tile_type == TileType::Grass || orig[y]@[x].tile_type == TileType::Sand)
                    && tiles@[y]@[x] == Tile::new(TileType::Water))
            } by {}
            assert(lakes_dug(orig, tiles@, w, h as int, surface_height@, lakes));
        }
    }

    /// Link each level to the one below with a staircase pair on floor (random tries first,
    /// then a row-by-row scan placing a pair on the first floor of each row), and add a few
    /// extra up-stairs on deeper levels. Every level but the deepest ends up with a down-staircase
    /// over an up-staircase on the level below, unless it has no interior floor left.
    pub fn connect_levels(tiles: &mut [Vec<Vec<Tile>>], width: usize, height: usize, depth: usize)
        requires
            grid3_dims(old(tiles)@, width as int, height as int, depth as int),
            width >= 3,
            height >= 3,
            depth >= 2,
        ensures
            grid3_dims(final(tiles)@, width as int, height as int, depth as int),
            stairs_only(old(tiles)@, final(tiles)@, width as int, height as int, depth as int),
            forall|z: int| 0 <= z < depth - 1 ==> #[trigger] linked_down(final(tiles)@, width as int, height as int, z),
            exists|tv: Seq<Seq<(usize, usize)>>, ev: Seq<(usize, Seq<(usize, usize)>)>| #[trigger] connect_draws_ok(tv, ev, width as int, height as int, depth as int)
                && forall|z: int, y: int, x: int| 0 <= z < depth && 0 <= y < height && 0 <= x < width ==> #[trigger] final(tiles)@[z]@[y]@[x]
                    == connected(tile_fn(old(tiles)@), width as int, height as int, depth as int, tv, ev)(z, y, x),
    {
        let mut rng = thread_rng();
        let mut tries: Vec<Vec<(usize, usize)>> = Vec::new();
        while tries.len() < depth - 1
            invariant
                width >= 3,
                height >= 3,
                tries@.len() <= depth - 1,
                forall|k: int| 0 <= k < tries@.len() ==> (#[trigger] tries@[k])@.len() == 100 && interior_tries(tries@[k]@, width as int, height as int),
            decreases depth - 1 - tries@.len(),
        {
            let t = random_tries(&mut rng, width, height);
            tries.push(t);
        }
        let mut extras: Vec<(usize, Vec<(usize, usize)>)> = Vec::new();
        while extras.len() < 3
            invariant
                width >= 3,
                height >= 3,
                depth >= 2,
                extras@.len() <= 3,
                forall|k: int| 0 <= k < extras@.len() ==> 1 <= (#[trigger] extras@[k]).0 < depth && extras@[k].1@.len() == 100
                    && interior_tries(extras@[k].1@, width as int, height as int),
            decreases 3 - extras@.len(),
        {
            let z = thread_range_usize(&mut rng, 1, depth);
            let t = random_tries(&mut rng, width, height);
            extras.push((z, t));
        }
        Self::connect_levels_with(tiles, width, height, depth, &tries, &extras);
        proof {
            let tv = tries_view(tries@);
            let ev = extras_view(extras@);
            assert(connect_draws_ok(tv, ev, width as int, height as int, depth as int));
        }
    }

    /// `connect_levels` with the tries given: level `z` takes `tries[z]` (none when missing) in
    /// order, and each extra up-staircase its level and its tries.
    #[verifier::spinoff_prover]
    #[verifier::rlimit(60)]
    pub fn connect_levels_with(tiles: &mut [Vec<Vec<Tile>>], width: usize, height: usize, depth: usize,
        tries: &Vec<Vec<(usize, usize)>>, extras: &Vec<(usize, Vec<(usize, usize)>)>)
        requires
            grid3_dims(old(tiles)@, width as int, height as int, depth as int),
            width >= 3,
            height >= 3,
            depth >= 2,
            forall|k: int| 0 <= k < extras@.len() ==> 1 <= (#[trigger] extras@[k]).0 < depth,
        ensures
            grid3_dims(final(tiles)@, width as int, height as int, depth as int),
            stairs_only(old(tiles)@, final(tiles)@, width as int, height as int, depth as int),
            forall|z: int| 0 <= z < depth - 1 ==> #[trigger] linked_down(final(tiles)@, width as int, height as int, z),
            forall|z: int, y: int, x: int| 0 <= z < depth && 0 <= y < height && 0 <= x < width ==> #[trigger] final(tiles)@[z]@[y]@[x]
                == connected(tile_fn(old(tiles)@), width as int, height as int, depth as int, tries_view(tries@), extras_view(extras@))(z, y, x),
    {
        let ghost orig = tiles@;
        let ghost w = width as int;
        let ghost h = height as int;
        let ghost d = depth as int;
        let ghost tv = tries_view(tries@);
        let ghost ev = extras_view(extras@);
        let ghost mut st = tile_fn(orig);
        let mut z: usize = 0;
        while z < depth - 1
            invariant
                width >= 3,
                height >= 3,
                depth >= 2,
                z <= depth - 1,
                w == width, h == height, d == depth,
                grid3_dims(tiles@, w, h, d),
                stairs_only(orig, tiles@, w, h, d),
                forall|z2: int| 0 <= z2 < z ==> #[trigger] linked_down(tiles@, w, h, z2),
                tv == tries_view(tries@),
                st == link_levels(tile_fn(orig), w, h, tv, z as int),
                same_tiles(tiles@, st, w, h, d),
            decreases depth - z,
        {
            let ghost start = tiles@;
            let ghost gz = st;
            let empty: Vec<(usize, usize)> = Vec::new();
            let ts: &Vec<(usize, usize)> = if z < tries.len() { &tries[z] } else { &empty };
            assert(ts@ == tries_at(tv, z as int));
            let mut stairs_placed = false;
            let mut attempt: usize = 0;
            while attempt < ts.len() && !stairs_placed
                invariant
                    ts@ == tries_at(tv, z as int),
                    attempt <= ts@.len(),
                    gz == link_levels(tile_fn(orig), w, h, tv, z as int),
                    !stairs_placed ==> first_try(gz, z as int, w, h, ts@.take(attempt as int)) is None && st == gz,
                    stairs_placed ==> first_try(gz, z as int, w, h, ts@) is Some && st == link_level(gz, z as int, w, h, ts@),
                    same_tiles(tiles@, st, w, h, d),
                    width >= 3,
                    height >= 3,
                    z < depth - 1,
                    w == width, h == height, d == depth,
                    grid3_dims(tiles@, w, h, d),
                    stairs_only(orig, tiles@, w, h, d),
                    level_step(start, tiles@, w, h, d, z as int),
                    stairs_placed ==> stair_pair(tiles@, w, h, z as int),
                decreases ts@.len() - attempt,
            {
                let (x, y) = ts[attempt];
                proof {
                    assert(ts@.take(attempt + 1).drop_last() =~= ts@.take(attempt as int));
                }
                if 1 <= x && x < width - 1 && 1 <= y && y < height - 1 && tiles[z][y][x].tile_type == TileType::Floor {
                    let ghost before = tiles@;
                    tiles[z][y][x] = Tile::new(TileType::StairsDown);
                    tiles[z + 1][y][x] = Tile::new(TileType::StairsUp);
                    proof {
                        lemma_pair_set(orig, start, before, tiles@, w, h, d, z as int, y as int, x as int);
                        assert(first_try(gz, z as int, w, h, ts@.take(attempt + 1)) == Some(attempt as int));
                        lemma_first_try_prefix(gz, z as int, w, h, ts@, attempt + 1);
                        st = put_pair(gz, z as int, y as int, x as int);
                    }
                    stairs_placed = true;
                }
                attempt = attempt + 1;
            }
            proof {
                if !stairs_placed {
                    assert(ts@.take(attempt as int) =~= ts@);
                }
            }
            if !stairs_placed {
                let mut y: usize = 1;
                while y < height - 1
                    invariant
                        1 <= y <= height - 1,
                        width >= 3,
                        height >= 3,
                        z < depth - 1,
                        w == width, h == height, d == depth,
                        grid3_dims(tiles@, w, h, d),
                        stairs_only(orig, tiles@, w, h, d),
                        level_step(start, tiles@, w, h, d, z as int),
                        stair_pair(tiles@, w, h, z as int) || forall|cx: int, cy: int| 1 <= cx < w - 1 && 1 <= cy < y
                            ==> #[trigger] tiles@[z as int]@[cy]@[cx].tile_type != TileType::Floor,
                        gz == link_levels(tile_fn(orig), w, h, tv, z as int),
                        first_try(gz, z as int, w, h, ts@) is None,
                        st == scan_rows(gz, z as int, w, h, y as int),
                        same_tiles(tiles@, st, w, h, d),
                    decreases height - y,
                {
                    let ghost g1 = st;
                    let mut x: usize = 1;
                    let mut row_done = false;
                    while x < width - 1 && !row_done
                        invariant
                            width >= 3,
                            1 <= y < height - 1,
                            1 <= x <= width - 1,
                            z < depth - 1,
                            w == width, h == height, d == depth,
                            grid3_dims(tiles@, w, h, d),
                            stairs_only(orig, tiles@, w, h, d),
                            level_step(start, tiles@, w, h, d, z as int),
                            row_done ==> stair_pair(tiles@, w, h, z as int),
                            stair_pair(tiles@, w, h, z as int) || ((forall|cx: int, cy: int| 1 <= cx < w - 1 && 1 <= cy < y
                                ==> #[trigger] tiles@[z as int]@[cy]@[cx].tile_type != TileType::Floor)
                                && forall|cx: int| 1 <= cx < x ==> #[trigger] tiles@[z as int]@[y as int]@[cx].tile_type != TileType::Floor),
                            g1 == scan_rows(gz, z as int, w, h, y as int),
                            !row_done ==> first_in_row(g1, z as int, y as int, x as int) is None && st == g1,
                            row_done ==> first_in_row(g1, z as int, y as int, w - 1) is Some
                                && st == put_pair(g1, z as int, y as int, first_in_row(g1, z as int, y as int, w - 1)->0),
                            same_tiles(tiles@, st, w, h, d),
                        decreases width - x,
                    {
                        if tiles[z][y][x].tile_type == TileType::Floor {
                            let ghost before = tiles@;
                            tiles[z][y][x] = Tile::new(TileType::StairsDown);
                            tiles[z + 1][y][x] = Tile::new(TileType::StairsUp);
                            proof {
                                lemma_pair_set(orig, start, before, tiles@, w, h, d, z as int, y as int, x as int);
                                assert(first_in_row(g1, z as int, y as int, x + 1) == Some(x as int));
                                lemma_first_in_row_prefix(g1, z as int, y as int, x + 1, w - 1);
                                st = put_pair(g1, z as int, y as int, x as int);
                            }
                            row_done = true;
                        }
                        x = x + 1;
                    }
                    y = y + 1;
                }
            }
            proof {
                assert(st == link_level(gz, z as int, w, h, ts@));
                assert(st == link_levels(tile_fn(orig), w, h, tv, z + 1));
                assert(linked_down(tiles@, w, h, z as int));
                assert forall|z2: int| 0 <= z2 < z + 1 implies #[trigger] linked_down(tiles@, w, h, z2) by {
                    if z2 < z {
                        lemma_linked_kept(start, tiles@, w, h, d, z as int, z2);
                    }
                }
            }
            z = z + 1;
        }
        let mut extra: usize = 0;
        while extra < extras.len()
            invariant
                ev == extras_view(extras@),
                forall|k: int| 0 <= k < extras@.len() ==> 1 <= (#[trigger] extras@[k]).0 < depth,
                extra <= extras@.len(),
                st == extras_up(link_levels(tile_fn(orig), w, h, tv, d - 1), w, h, ev, extra as int),
                same_tiles(tiles@, st, w, h, d),
                width >= 3,
                height >= 3,
                depth >= 2,
                w == width, h == height, d == depth,
                grid3_dims(tiles@, w, h, d),
                stairs_only(orig, tiles@, w, h, d),
                forall|z2: int| 0 <= z2 < d - 1 ==> #[trigger] linked_down(tiles@, w, h, z2),
            decreases extras@.len() - extra,
        {
            let z = extras[extra].0;
            let ts = &extras[extra].1;
            assert(1 <= extras@[extra as int].0 < depth);
            let ghost ge = st;
            let mut attempt: usize = 0;
            let mut done = false;
            while attempt < ts.len() && !done
                invariant
                    1 <= z < depth,
                    ts@ == ev[extra as int].1,
                    z == ev[extra as int].0,
                    attempt <= ts@.len(),
                    !done ==> first_try(ge, z as int, w, h, ts@.take(attempt as int)) is None && st == ge,
                    done ==> st == extra_up(ge, w, h, z, ts@),
                    same_tiles(tiles@, st, w, h, d),
                    width >= 3,
                    height >= 3,
                    z < depth,
                    w == width, h == height, d == depth,
                    grid3_dims(tiles@, w, h, d),
                    stairs_only(orig, tiles@, w, h, d),
                    forall|z2: int| 0 <= z2 < d - 1 ==> #[trigger] linked_down(tiles@, w, h, z2),
                decreases ts@.len() - attempt,
            {
                let (x, y) = ts[attempt];
                proof {
                    assert(ts@.take(attempt + 1).drop_last() =~= ts@.take(attempt as int));
                }
                if 1 <= x && x < width - 1 && 1 <= y && y < height - 1 && tiles[z][y][x].tile_type == TileType::Floor {
                    let ghost before = tiles@;
                    tiles[z][y][x] = Tile::new(TileType::StairsUp);
                    proof {
                        lemma_extra_up(orig, before, tiles@, w, h, d, z as int, y as int, x as int);
                        assert(first_try(ge, z as int, w, h, ts@.take(attempt + 1)) == Some(attempt as int));
                        lemma_first_try_prefix(ge, z as int, w, h, ts@, attempt + 1);
                        st = put(ge, z as int, y as int, x as int, Tile::new(TileType::StairsUp));
                    }
                    done = true;
                }
                attempt = attempt + 1;
            }
            proof {
                if !done {
                    assert(ts@.take(attempt as int) =~= ts@);
                }
                assert(st == extra_up(ge, w, h, z, ts@));
            }
            extra = extra + 1;
        }
    }

    /// The draw `d` names a tile of level `z` of type `tt`.
    pub open spec fn draw_hits(&self, z: int, d: (usize, usize), tt: TileType) -> bool {
        d.0 < self.width && d.1 < self.height && self.tile(d.0 as int, d.1 as int, z).tile_type == tt
    }

    /// Index of the first of `draws` that names a tile of level `z` of type `tt`, if any.
    pub open spec fn first_hit(&self, z: int, draws: Seq<(usize, usize)>, tt: TileType) -> Option<int>
        decreases draws.len(),
    {
        if draws.len() == 0 {
            None
        } else {
            match self.first_hit(z, draws.drop_last(), tt) {
                Some(i) => Some(i),
                None => if self.draw_hits(z, draws.last(), tt) { Some(draws.len() - 1) } else { None },
            }
        }
    }

    /// The position of draw `i`.
    pub open spec fn draw_pos(draws: Seq<(usize, usize)>, i: int) -> Position {
        Position { x: draws[i].0 as i32, y: draws[i].1 as i32 }
    }

    /// The start position the draws give: the first that lands on floor, else `(1, 1)`.
    pub open spec fn start_from(&self, z: int, draws: Seq<(usize, usize)>) -> Position {
        match self.first_hit(z, draws, TileType::Floor) {
            Some(i) => Self::draw_pos(draws, i),
            None => Position { x: 1, y: 1 },
        }
    }

    /// The exit position the draws give: the first of `draws` that lands on an up-staircase,
    /// else the start position `more` gives.
    pub open spec fn exit_from(&self, z: int, draws: Seq<(usize, usize)>, more: Seq<(usize, usize)>) -> Position {
        match self.first_hit(z, draws, TileType::StairsUp) {
            Some(i) => Self::draw_pos(draws, i),
            None => self.start_from(z, more),
        }
    }

    /// The draws are interior positions of the map.
    pub open spec fn interior_draws(&self, draws: Seq<(usize, usize)>) -> bool {
        forall|i: int| 0 <= i < draws.len() ==> 1 <= (#[trigger] draws[i]).0 < self.width - 1 && 1 <= draws[i].1 < self.height - 1
    }

    /// Index of the first of `draws` that lands on a tile of level `z` of type `tt`.
    pub fn first_with(&self, z: usize, draws: &Vec<(usize, usize)>, tt: TileType) -> (r: Option<usize>)
        requires
            self.wf(),
            z < self.depth,
        ensures
            match r {
                Some(i) => self.first_hit(z as int, draws@, tt) == Some(i as int),
                None => self.first_hit(z as int, draws@, tt) is None,
            },
            r matches Some(i) ==> i < draws@.len(),
    {
        let mut i: usize = 0;
        while i < draws.len()
            invariant
                self.wf(),
                z < self.depth,
                i <= draws@.len(),
                self.first_hit(z as int, draws@.take(i as int), tt) is None,
            decreases draws@.len() - i,
        {
            let (x, y) = draws[i];
            let ghost t = draws@.take(i + 1);
            assert(t.drop_last() =~= draws@.take(i as int));
            if x < self.width && y < self.height && self.tiles[z][y][x].tile_type == tt {
                proof { assert(self.first_hit(z as int, t, tt) == Some(i as int)); }
                proof { lemma_first_hit_prefix(*self, z as int, draws@, i as int + 1, tt); }
                assert(i < draws@.len());
                return Some(i);
            }
            i = i + 1;
        }
        assert(draws@.take(i as int) =~= draws@);
        None
    }

    /// The start position the draws give: the first that lands on a floor tile of level `z`,
    /// else `(1, 1)`.
    pub fn first_floor(&self, z: usize, draws: &Vec<(usize, usize)>) -> (p: Position)
        requires
            self.wf(),
            z < self.depth,
        ensures
            p == self.start_from(z as int, draws@),
    {
        match self.first_with(z, draws, TileType::Floor) {
            Some(i) => Position { x: draws[i].0 as i32, y: draws[i].1 as i32 },
            None => Position { x: 1, y: 1 },
        }
    }

    /// The exit position the draws give: the first of `draws` that lands on an up-staircase of
    /// level `z`, else the start position `more` gives.
    pub fn first_exit(&self, z: usize, draws: &Vec<(usize, usize)>, more: &Vec<(usize, usize)>) -> (p: Position)
        requires
            self.wf(),
            z < self.depth,
        ensures
            p == self.exit_from(z as int, draws@, more@),
    {
        match self.first_with(z, draws, TileType::StairsUp) {
            Some(i) => Position { x: draws[i].0 as i32, y: draws[i].1 as i32 },
            None => self.first_floor(z, more),
        }
    }

    /// A thousand random interior positions.
    fn interior_draws_from(&self, rng: &mut ThreadRng) -> (draws: Vec<(usize, usize)>)
        requires
            self.width >= 3,
            self.height >= 3,
        ensures
            draws@.len() == 1000,
            self.interior_draws(draws@),
    {
        let mut draws: Vec<(usize, usize)> = Vec::new();
        while draws.len() < 1000
            invariant
                self.width >= 3,
                self.height >= 3,
                draws@.len() <= 1000,
                self.interior_draws(draws@),
            decreases 1000 - draws@.len(),
        {
            let x = thread_range_usize(rng, 1, self.width - 1);
            let y = thread_range_usize(rng, 1, self.height - 1);
            draws.push((x, y));
        }
        draws
    }

    /// A random interior floor tile of level `z` (up to 1000 tries), else `(1, 1)`.
    pub fn find_start_position(&self, z: usize) -> (p: Position)
        requires
            self.wf(),
            z < self.depth,
            self.width >= 3,
            self.height >= 3,
        ensures
            exists|draws: Seq<(usize, usize)>| draws.len() == 1000 && #[trigger] self.interior_draws(draws)
                && p == self.start_from(z as int, draws),
            p == (Position { x: 1, y: 1 }) || exists|x: int, y: int|
                1 <= x < self.width - 1 && 1 <= y < self.height - 1 && #[trigger] self.tile(x, y, z as int).tile_type
                    == TileType::Floor && p == (Position { x: x as i32, y: y as i32 }),
    {
        let mut rng = thread_rng();
        let draws = self.interior_draws_from(&mut rng);
        let p = self.first_floor(z, &draws);
        assert(self.interior_draws(draws@));
        proof {
            lemma_first_hit_facts(*self, z as int, draws@, TileType::Floor);
            if let Some(i) = self.first_hit(z as int, draws@, TileType::Floor) {
                assert(self.interior_draws(draws@));
                let x = draws@[i].0 as int;
                let y = draws@[i].1 as int;
                assert(self.tile(x, y, z as int).tile_type == TileType::Floor);
            }
        }
        p
    }

    /// A random interior up-staircase of level `z` (up to 1000 tries), else a start position.
    pub fn find_exit_position(&self, z: usize) -> (p: Position)
        requires
            self.wf(),
            z < self.depth,
            self.width >= 3,
            self.height >= 3,
        ensures
            exists|draws: Seq<(usize, usize)>, more: Seq<(usize, usize)>| draws.len() == 1000 && more.len() == 1000
                && #[trigger] self.interior_draws(draws) && #[trigger] self.interior_draws(more)
                && p == self.exit_from(z as int, draws, more),
            p == (Position { x: 1, y: 1 }) || exists|x: int, y: int|
                1 <= x < self.width - 1 && 1 <= y < self.height - 1 && (#[trigger] self.tile(x, y, z as int).tile_type
                    == TileType::Floor || self.tile(x, y, z as int).tile_type == TileType::StairsUp) && p == (Position {
                    x: x as i32,
                    y: y as i32,
                }),
    {
        let mut rng = thread_rng();
        let draws = self.interior_draws_from(&mut rng);
        let more = self.interior_draws_from(&mut rng);
        let p = self.first_exit(z, &draws, &more);
        assert(self.interior_draws(draws@) && self.interior_draws(more@));
        proof {
            lemma_first_hit_facts(*self, z as int, draws@, TileType::StairsUp);
            lemma_first_hit_facts(*self, z as int, more@, TileType::Floor);
            if let Some(i) = self.first_hit(z as int, draws@, TileType::StairsUp) {
                let x = draws@[i].0 as int;
                let y = draws@[i].1 as int;
                assert(self.tile(x, y, z as int).tile_type == TileType::StairsUp);
            } else if let Some(i) = self.first_hit(z as int, more@, TileType::Floor) {
                let x = more@[i].0 as int;
                let y = more@[i].1 as int;
                assert(self.tile(x, y, z as int).tile_type == TileType::Floor);
            }
        }
        p
    }
}

/// The first hit is a hit, and no earlier draw is one; with no first hit, no draw is one.
pub proof fn lemma_first_hit_facts(map: TileMap, z: int, draws: Seq<(usize, usize)>, tt: TileType)
    ensures
        map.first_hit(z, draws, tt) matches Some(i) ==> 0 <= i < draws.len() && map.draw_hits(z, draws[i], tt)
            && forall|j: int| 0 <= j < i ==> !#[trigger] map.draw_hits(z, draws[j], tt),
        map.first_hit(z, draws, tt) is None ==> forall|j: int| 0 <= j < draws.len() ==> !#[trigger] map.draw_hits(z, draws[j], tt),
    decreases draws.len(),
{
    if draws.len() > 0 {
        let rest = draws.drop_last();
        lemma_first_hit_facts(map, z, rest, tt);
        assert forall|j: int| 0 <= j < rest.len() implies rest[j] == draws[j] by {}
    }
}

/// Once a prefix of the draws has a hit, longer prefixes have the same first hit.
pub proof fn lemma_first_hit_prefix(map: TileMap, z: int, draws: Seq<(usize, usize)>, k: int, tt: TileType)
    requires
        0 <= k <= draws.len(),
        map.first_hit(z, draws.take(k), tt) is Some,
    ensures
        map.first_hit(z, draws, tt) == map.first_hit(z, draws.take(k), tt),
    decreases draws.len() - k,
{
    if k < draws.len() {
        assert(draws.take(k + 1).drop_last() =~= draws.take(k));
        lemma_first_hit_prefix(map, z, draws, k + 1, tt);
    } else {
        assert(draws.take(k) =~= draws);
    }
}

/// The tile at `(z, y, x)` of a stack of levels.
pub open spec fn tile_fn(t: Seq<Vec<Vec<Tile>>>) -> spec_fn(int, int, int) -> Tile {
    |z: int, y: int, x: int| t[z]@[y]@[x]
}

/// The levels hold exactly the tiles `g` gives.
pub open spec fn same_tiles(t: Seq<Vec<Vec<Tile>>>, g: spec_fn(int, int, int) -> Tile, w: int, h: int, d: int) -> bool {
    forall|z: int, y: int, x: int| 0 <= z < d && 0 <= y < h && 0 <= x < w ==> #[trigger] t[z]@[y]@[x] == g(z, y, x)
}

/// `g` with `t` at `(z, y, x)`.
pub open spec fn put(g: spec_fn(int, int, int) -> Tile, z: int, y: int, x: int, t: Tile) -> spec_fn(int, int, int) -> Tile {
    |a: int, b: int, c: int| if a == z && b == y && c == x { t } else { g(a, b, c) }
}

/// `g` with a down-staircase at `(z, y, x)` over an up-staircase below it.
pub open spec fn put_pair(g: spec_fn(int, int, int) -> Tile, z: int, y: int, x: int) -> spec_fn(int, int, int) -> Tile {
    put(put(g, z, y, x, Tile::new(TileType::StairsDown)), z + 1, y, x, Tile::new(TileType::StairsUp))
}

/// The try `p` lands on interior floor of level `z`.
pub open spec fn try_hits(g: spec_fn(int, int, int) -> Tile, z: int, w: int, h: int, p: (usize, usize)) -> bool {
    1 <= p.0 < w - 1 && 1 <= p.1 < h - 1 && g(z, p.1 as int, p.0 as int).tile_type == TileType::Floor
}

/// Index of the first of `ts` that lands on interior floor of level `z`.
pub open spec fn first_try(g: spec_fn(int, int, int) -> Tile, z: int, w: int, h: int, ts: Seq<(usize, usize)>) -> Option<int>
    decreases ts.len(),
{
    if ts.len() == 0 {
        None
    } else {
        match first_try(g, z, w, h, ts.drop_last()) {
            Some(i) => Some(i),
            None => if try_hits(g, z, w, h, ts.last()) { Some(ts.len() - 1) } else { None },
        }
    }
}

/// The first floor column of row `y` of level `z` among `1` up to, not including, `x`.
pub open spec fn first_in_row(g: spec_fn(int, int, int) -> Tile, z: int, y: int, x: int) -> Option<int>
    decreases x,
{
    if x <= 1 {
        None
    } else {
        match first_in_row(g, z, y, x - 1) {
            Some(c) => Some(c),
            None => if g(z, y, x - 1).tile_type == TileType::Floor { Some(x - 1) } else { None },
        }
    }
}

/// The fallback scan of level `z` over rows `1` up to, not including, `y`: a staircase pair on
/// the first interior floor of each row.
pub open spec fn scan_rows(g: spec_fn(int, int, int) -> Tile, z: int, w: int, h: int, y: int) -> spec_fn(int, int, int) -> Tile
    decreases y,
{
    if y <= 1 {
        g
    } else {
        let g1 = scan_rows(g, z, w, h, y - 1);
        match first_in_row(g1, z, y - 1, w - 1) {
            Some(x) => put_pair(g1, z, y - 1, x),
            None => g1,
        }
    }
}

/// Linking level `z` with the tries `ts`: a pair at the first try on floor, else the scan.
pub open spec fn link_level(g: spec_fn(int, int, int) -> Tile, z: int, w: int, h: int, ts: Seq<(usize, usize)>) -> spec_fn(int, int, int) -> Tile {
    match first_try(g, z, w, h, ts) {
        Some(i) => put_pair(g, z, ts[i].1 as int, ts[i].0 as int),
        None => scan_rows(g, z, w, h, h - 1),
    }
}

/// The tries of level `k`, none when missing.
pub open spec fn tries_at(tv: Seq<Seq<(usize, usize)>>, k: int) -> Seq<(usize, usize)> {
    if 0 <= k < tv.len() { tv[k] } else { Seq::empty() }
}

/// Linking the levels `0` up to, not including, `k`, in order.
pub open spec fn link_levels(g: spec_fn(int, int, int) -> Tile, w: int, h: int, tv: Seq<Seq<(usize, usize)>>, k: int) -> spec_fn(int, int, int) -> Tile
    decreases k,
{
    if k <= 0 { g } else { let p = link_levels(g, w, h, tv, k - 1); link_level(p, k - 1, w, h, tries_at(tv, k - 1)) }
}

/// An extra up-staircase on level `z` at the first of `ts` on floor, if any.
pub open spec fn extra_up(g: spec_fn(int, int, int) -> Tile, w: int, h: int, z: usize, ts: Seq<(usize, usize)>) -> spec_fn(int, int, int) -> Tile {
    match first_try(g, z as int, w, h, ts) {
        Some(i) => put(g, z as int, ts[i].1 as int, ts[i].0 as int, Tile::new(TileType::StairsUp)),
        None => g,
    }
}

/// The first `k` extra up-staircases, in order.
pub open spec fn extras_up(g: spec_fn(int, int, int) -> Tile, w: int, h: int, ev: Seq<(usize, Seq<(usize, usize)>)>, k: int) -> spec_fn(int, int, int) -> Tile
    decreases k,
{
    if k <= 0 { g } else { let p = extras_up(g, w, h, ev, k - 1); extra_up(p, w, h, ev[k - 1].0, ev[k - 1].1) }
}

/// The levels after linking each to the next with `tv` and adding the extra up-stairs `ev`.
pub open spec fn connected(g: spec_fn(int, int, int) -> Tile, w: int, h: int, d: int, tv: Seq<Seq<(usize, usize)>>,
    ev: Seq<(usize, Seq<(usize, usize)>)>) -> spec_fn(int, int, int) -> Tile {
    extras_up(link_levels(g, w, h, tv, d - 1), w, h, ev, ev.len() as int)
}

pub open spec fn tries_view(t: Seq<Vec<(usize, usize)>>) -> Seq<Seq<(usize, usize)>> {
    t.map_values(|v: Vec<(usize, usize)>| v@)
}

pub open spec fn extras_view(e: Seq<(usize, Vec<(usize, usize)>)>) -> Seq<(usize, Seq<(usize, usize)>)> {
    e.map_values(|p: (usize, Vec<(usize, usize)>)| (p.0, p.1@))
}

/// The tries are interior positions.
pub open spec fn interior_tries(ts: Seq<(usize, usize)>, w: int, h: int) -> bool {
    forall|i: int| 0 <= i < ts.len() ==> 1 <= (#[trigger] ts[i]).0 < w - 1 && 1 <= ts[i].1 < h - 1
}

/// The draws `connect_levels` makes: a hundred interior tries for each level but the deepest, and
/// three extra levels from `1` up, each with a hundred interior tries.
pub open spec fn connect_draws_ok(tv: Seq<Seq<(usize, usize)>>, ev: Seq<(usize, Seq<(usize, usize)>)>, w: int, h: int, d: int) -> bool {
    &&& tv.len() == d - 1
    &&& forall|k: int| 0 <= k < tv.len() ==> (#[trigger] tv[k]).len() == 100 && interior_tries(tv[k], w, h)
    &&& ev.len() == 3
    &&& forall|k: int| 0 <= k < ev.len() ==> 1 <= (#[trigger] ev[k]).0 < d && ev[k].1.len() == 100 && interior_tries(ev[k].1, w, h)
}

/// A hundred random interior positions.
fn random_tries(rng: &mut ThreadRng, width: usize, height: usize) -> (t: Vec<(usize, usize)>)
    requires
        width >= 3,
        height >= 3,
    ensures
        t@.len() == 100,
        interior_tries(t@, width as int, height as int),
{
    let mut t: Vec<(usize, usize)> = Vec::new();
    while t.len() < 100
        invariant
            width >= 3,
            height >= 3,
            t@.len() <= 100,
            interior_tries(t@, width as int, height as int),
        decreases 100 - t@.len(),
    {
        let x = thread_range_usize(rng, 1, width - 1);
        let y = thread_range_usize(rng, 1, height - 1);
        t.push((x, y));
    }
    t
}

proof fn lemma_first_try_prefix(g: spec_fn(int, int, int) -> Tile, z: int, w: int, h: int, ts: Seq<(usize, usize)>, k: int)
    requires
        0 <= k <= ts.len(),
        first_try(g, z, w, h, ts.take(k)) is Some,
    ensures
        first_try(g, z, w, h, ts) == first_try(g, z, w, h, ts.take(k)),
    decreases ts.len() - k,
{
    if k < ts.len() {
        assert(ts.take(k + 1).drop_last() =~= ts.take(k));
        lemma_first_try_prefix(g, z, w, h, ts, k + 1);
    } else {
        assert(ts.take(k) =~= ts);
    }
}

proof fn lemma_first_in_row_prefix(g: spec_fn(int, int, int) -> Tile, z: int, y: int, k: int, x: int)
    requires
        1 <= k <= x,
        first_in_row(g, z, y, k) is Some,
    ensures
        first_in_row(g, z, y, x) == first_in_row(g, z, y, k),
    decreases x - k,
{
    if k < x {
        lemma_first_in_row_prefix(g, z, y, k, x - 1);
    }
}

} // verus!
