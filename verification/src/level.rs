use vstd::prelude::*;
pub use crate::tile::Tile;
pub use crate::item::{EquipSlot, Item};

verus! {

/// What kind of place a location is: decides its atmosphere, how it is generated and its flavor.
#[derive(Clone, Copy, PartialEq, Eq, Debug, Structural)]
pub enum LocationType {
    ShipInterior,
    SpaceStation,
    DerelictShip,
    AsteroidField,
    PlanetSurface { breathable: bool },
    DeepSpace,
    Ruins,
}

/// `cells` with every in-range cell `(c, r)` that satisfies `pred` replaced by `tile`.
pub open spec fn paint(cells: Seq<Seq<Tile>>, pred: spec_fn(int, int) -> bool, tile: Tile) -> Seq<Seq<Tile>> {
    Seq::new(
        cells.len(),
        |r: int| Seq::new(cells[r].len(), |c: int| if pred(c, r) { tile } else { cells[r][c] }),
    )
}

/// The half-open rectangle `[x0, x0 + w) x [y0, y0 + h)`.
pub open spec fn in_rect(x0: int, y0: int, w: int, h: int) -> spec_fn(int, int) -> bool {
    |c: int, r: int| x0 <= c < x0 + w && y0 <= r < y0 + h
}

/// A grid of `h` rows of `w` cells.
pub open spec fn grid_dims(cells: Seq<Seq<Tile>>, w: int, h: int) -> bool {
    cells.len() == h && forall|r: int| 0 <= r < h ==> #[trigger] cells[r].len() == w
}

/// `cells` after writing `tile` at `(x, y)`; a write off the `w` by `h` grid changes nothing.
pub open spec fn set_cells(cells: Seq<Seq<Tile>>, w: int, h: int, x: int, y: int, tile: Tile) -> Seq<Seq<Tile>> {
    if 0 <= x < w && 0 <= y < h {
        cells.update(y, cells[y].update(x, tile))
    } else {
        cells
    }
}

pub proof fn lemma_paint_ext(cells: Seq<Seq<Tile>>, p: spec_fn(int, int) -> bool, q: spec_fn(int, int) -> bool, tile: Tile)
    requires
        forall|c: int, r: int| #[trigger] p(c, r) == q(c, r),
    ensures
        paint(cells, p, tile) == paint(cells, q, tile),
{
    assert forall|r: int| 0 <= r < cells.len() implies #[trigger] paint(cells, p, tile)[r] == paint(cells, q, tile)[r] by {
        assert(paint(cells, p, tile)[r] =~= paint(cells, q, tile)[r]);
    }
    assert(paint(cells, p, tile) =~= paint(cells, q, tile));
}

/// Writing `tile` into a painted grid paints one more cell.
pub proof fn lemma_paint_set(cells: Seq<Seq<Tile>>, w: int, h: int, p: spec_fn(int, int) -> bool, x: int, y: int, tile: Tile)
    requires
        grid_dims(cells, w, h),
    ensures
        set_cells(paint(cells, p, tile), w, h, x, y, tile)
            == paint(cells, |c: int, r: int| p(c, r) || (c == x && r == y), tile),
{
    let q = |c: int, r: int| p(c, r) || (c == x && r == y);
    let lhs = set_cells(paint(cells, p, tile), w, h, x, y, tile);
    let rhs = paint(cells, q, tile);
    assert forall|r: int| 0 <= r < cells.len() implies #[trigger] lhs[r] == rhs[r] by {
        assert(cells[r].len() == w);
        assert(lhs[r] =~= rhs[r]);
    }
    assert(lhs =~= rhs);
}

pub proof fn lemma_paint_none(cells: Seq<Seq<Tile>>, w: int, h: int, p: spec_fn(int, int) -> bool, tile: Tile)
    requires
        grid_dims(cells, w, h),
        forall|c: int, r: int| 0 <= c < w && 0 <= r < h ==> !#[trigger] p(c, r),
    ensures
        paint(cells, p, tile) == cells,
{
    assert forall|r: int| 0 <= r < cells.len() implies #[trigger] paint(cells, p, tile)[r] == cells[r] by {
        assert(paint(cells, p, tile)[r] =~= cells[r]);
    }
    assert(paint(cells, p, tile) =~= cells);
}

/// One floor of a location: a `height`-row by `width`-column grid of tiles.
#[derive(Clone, Debug)]
pub struct Level {
    pub tiles: Vec<Vec<Tile>>,
    pub width: usize,
    pub height: usize,
}

impl Level {
    /// The rows of the grid as mathematical sequences.
    pub open spec fn cells(&self) -> Seq<Seq<Tile>> {
        self.tiles@.map_values(|row: Vec<Tile>| row@)
    }

    /// The grid has `height` rows of `width` tiles each.
    pub open spec fn wf(&self) -> bool {
        &&& self.tiles@.len() == self.height
        &&& forall|y: int| 0 <= y < self.height ==> #[trigger] self.tiles@[y]@.len() == self.width
    }

    pub open spec fn in_bounds(&self, x: int, y: int) -> bool {
        0 <= x < self.width && 0 <= y < self.height
    }

    pub open spec fn tile_at(&self, x: int, y: int) -> Tile {
        self.tiles@[y]@[x]
    }

    /// The tile at `(x, y)`, or `None` off the grid.
    pub open spec fn tile_opt(&self, x: int, y: int) -> Option<Tile> {
        if self.in_bounds(x, y) {
            Some(self.tile_at(x, y))
        } else {
            None
        }
    }

    pub open spec fn spec_walkable(&self, x: int, y: int) -> bool {
        self.in_bounds(x, y) && self.tile_at(x, y).spec_walkable()
    }

    /// The grid after writing `tile` at `(x, y)`; writes off the grid change nothing.
    pub open spec fn cells_after_set(&self, x: int, y: int, tile: Tile) -> Seq<Seq<Tile>> {
        set_cells(self.cells(), self.width as int, self.height as int, x, y, tile)
    }

    pub proof fn lemma_wf_dims(&self)
        requires
            self.wf(),
        ensures
            grid_dims(self.cells(), self.width as int, self.height as int),
            forall|x: int, y: int| self.in_bounds(x, y) ==> #[trigger] self.cells()[y][x] == self.tile_at(x, y),
    {
        assert forall|r: int| 0 <= r < self.height implies #[trigger] self.cells()[r].len() == self.width by {
            assert(self.tiles@[r]@.len() == self.width);
        }
    }

    pub fn new(width: usize, height: usize, fill: Tile) -> (level: Self)
        ensures
            level.wf(),
            level.width == width,
            level.height == height,
            forall|x: int, y: int| level.in_bounds(x, y) ==> level.tile_at(x, y) == fill,
    {
        let mut tiles: Vec<Vec<Tile>> = Vec::new();
        let mut j: usize = 0;
        while j < height
            invariant
                j <= height,
                tiles@.len() == j,
                forall|y: int| 0 <= y < j ==> #[trigger] tiles@[y]@.len() == width,
                forall|x: int, y: int|
                    0 <= y < j && 0 <= x < width ==> tiles@[y]@[x] == fill,
            decreases height - j,
        {
            let mut row: Vec<Tile> = Vec::new();
            let mut i: usize = 0;
            while i < width
                invariant
                    i <= width,
                    row@.len() == i,
                    forall|x: int| 0 <= x < i ==> row@[x] == fill,
                decreases width - i,
            {
                row.push(fill);
                i = i + 1;
            }
            tiles.push(row);
            j = j + 1;
        }
        Level { tiles, width, height }
    }

    /// A tile-for-tile copy of the level.
    pub fn duplicate(&self) -> (l: Self)
        ensures
            l.width == self.width,
            l.height == self.height,
            l.tiles@.len() == self.tiles@.len(),
            l.cells() == self.cells(),
            self.wf() ==> l.wf(),
    {
        let mut tiles: Vec<Vec<Tile>> = Vec::new();
        let mut j: usize = 0;
        while j < self.tiles.len()
            invariant
                j <= self.tiles@.len(),
                tiles@.len() == j,
                forall|y: int| 0 <= y < j ==> #[trigger] tiles@[y]@ == self.tiles@[y]@,
            decreases self.tiles@.len() - j,
        {
            let src = &self.tiles[j];
            let mut row: Vec<Tile> = Vec::new();
            let mut i: usize = 0;
            while i < src.len()
                invariant
                    i <= src@.len(),
                    row@ == src@.subrange(0, i as int),
                decreases src@.len() - i,
            {
                row.push(src[i]);
                i = i + 1;
            }
            assert(row@ == src@);
            tiles.push(row);
            j = j + 1;
        }
        let l = Level { tiles, width: self.width, height: self.height };
        assert(l.cells() =~= self.cells());
        l
    }

    pub fn get(&self, x: i32, y: i32) -> (t: Option<Tile>)
        requires
            self.wf(),
        ensures
            t == self.tile_opt(x as int, y as int),
    {
        if x >= 0 && y >= 0 && (x as usize) < self.width && (y as usize) < self.height {
            Some(self.tiles[y as usize][x as usize])
        } else {
            None
        }
    }

    pub fn set(&mut self, x: i32, y: i32, tile: Tile)
        requires
            old(self).wf(),
        ensures
            final(self).wf(),
            final(self).width == old(self).width,
            final(self).height == old(self).height,
            final(self).cells() == old(self).cells_after_set(x as int, y as int, tile),
    {
        if x >= 0 && y >= 0 && (x as usize) < self.width && (y as usize) < self.height {
            let yu = y as usize;
            let xu = x as usize;
            let ghost before = self.cells();
            self.tiles[yu][xu] = tile;
            assert(self.cells() =~= before.update(yu as int, before[yu as int].update(xu as int, tile)));
        }
    }

    pub fn walkable(&self, x: i32, y: i32) -> (b: bool)
        requires
            self.wf(),
        ensures
            b == self.spec_walkable(x as int, y as int),
    {
        match self.get(x, y) {
            Some(t) => t.walkable(),
            None => false,
        }
    }
}

} // verus!

verus! {

/// A `w` by `h` rectangle at `(x, y)` stays inside the `i32` coordinate range.
pub open spec fn rect_fits(x: i32, y: i32, w: i32, h: i32) -> bool {
    w > 0 && h > 0 ==> x + w - 1 <= i32::MAX && y + h - 1 <= i32::MAX
}

/// Fill a rectangular region with a tile.
pub fn fill_rect(level: &mut Level, x: i32, y: i32, w: usize, h: usize, tile: Tile)
    requires
        old(level).wf(),
        rect_fits(x, y, w as i32, h as i32),
    ensures
        final(level).wf(),
        final(level).width == old(level).width,
        final(level).height == old(level).height,
        final(level).cells() == paint(old(level).cells(), in_rect(x as int, y as int, w as i32 as int, h as i32 as int), tile),
{
    let wi = w as i32;
    let hi = h as i32;
    let ghost orig = level.cells();
    let ghost lw = level.width as int;
    let ghost lh = level.height as int;
    let ghost rect = in_rect(x as int, y as int, wi as int, hi as int);
    proof {
        level.lemma_wf_dims();
    }
    if wi <= 0 || hi <= 0 {
        proof {
            lemma_paint_none(orig, lw, lh, rect, tile);
        }
        return;
    }
    proof {
        lemma_paint_none(orig, lw, lh, |c: int, r: int| rect(c, r) && r - y < 0, tile);
    }
    let mut dy: i32 = 0;
    while dy < hi
        invariant
            0 <= dy <= hi,
            0 < wi,
            rect_fits(x, y, wi, hi),
            rect == in_rect(x as int, y as int, wi as int, hi as int),
            level.wf(),
            level.width == lw,
            level.height == lh,
            grid_dims(orig, lw, lh),
            level.cells() == paint(orig, |c: int, r: int| rect(c, r) && r - y < dy, tile),
        decreases hi - dy,
    {
        let mut dx: i32 = 0;
        proof {
            lemma_paint_ext(orig, |c: int, r: int| rect(c, r) && r - y < dy,
                |c: int, r: int| rect(c, r) && (r - y < dy || (r - y == dy && c - x < 0)), tile);
        }
        while dx < wi
            invariant
                0 <= dx <= wi,
                0 <= dy < hi,
                rect_fits(x, y, wi, hi),
                rect == in_rect(x as int, y as int, wi as int, hi as int),
                level.wf(),
                level.width == lw,
                level.height == lh,
                grid_dims(orig, lw, lh),
                level.cells() == paint(orig, |c: int, r: int| rect(c, r) && (r - y < dy || (r - y == dy && c - x < dx)), tile),
            decreases wi - dx,
        {
            let ghost p = |c: int, r: int| rect(c, r) && (r - y < dy || (r - y == dy && c - x < dx));
            level.set(x + dx, y + dy, tile);
            proof {
                lemma_paint_set(orig, lw, lh, p, (x + dx) as int, (y + dy) as int, tile);
                lemma_paint_ext(orig, |c: int, r: int| p(c, r) || (c == x + dx && r == y + dy),
                    |c: int, r: int| rect(c, r) && (r - y < dy || (r - y == dy && c - x < dx + 1)), tile);
            }
            dx = dx + 1;
        }
        proof {
            lemma_paint_ext(orig, |c: int, r: int| rect(c, r) && (r - y < dy || (r - y == dy && c - x < wi)),
                |c: int, r: int| rect(c, r) && r - y < dy + 1, tile);
        }
        dy = dy + 1;
    }
    proof {
        lemma_paint_ext(orig, |c: int, r: int| rect(c, r) && r - y < hi, rect, tile);
    }
}

} // verus!

verus! {

/// Place a room: wall border with floor interior.
pub fn place_room(level: &mut Level, x: i32, y: i32, w: usize, h: usize, wall: Tile)
    requires
        old(level).wf(),
        rect_fits(x, y, w as i32, h as i32),
        w > 2 && h > 2 ==> x < i32::MAX && y < i32::MAX && rect_fits(
            (x + 1) as i32,
            (y + 1) as i32,
            (w - 2) as i32,
            (h - 2) as i32,
        ),
    ensures
        final(level).wf(),
        final(level).width == old(level).width,
        final(level).height == old(level).height,
        final(level).cells() == room_cells(old(level).cells(), x as int, y as int, w as int, h as int, wall),
{
    fill_rect(level, x, y, w, h, wall);
    if w > 2 && h > 2 {
        fill_rect(level, x + 1, y + 1, w - 2, h - 2, Tile::DeckPlate);
    }
}

/// A room of `wall` tiles whose interior (when it has one) is deck plating.
pub open spec fn room_cells(cells: Seq<Seq<Tile>>, x: int, y: int, w: int, h: int, wall: Tile) -> Seq<Seq<Tile>> {
    let walled = paint(cells, in_rect(x, y, w as i32 as int, h as i32 as int), wall);
    if w > 2 && h > 2 {
        paint(walled, in_rect(x + 1, y + 1, (w - 2) as i32 as int, (h - 2) as i32 as int), Tile::DeckPlate)
    } else {
        walled
    }
}

#[derive(Clone, Copy)]
pub enum Side {
    North,
    South,
    East,
    West,
}

/// The door cell of a room at `(x, y)` of size `w` by `h` with a door on `side`.
pub open spec fn door_cell(side: Side, x: i32, y: i32, w: usize, h: usize, door_offset: usize) -> (int, int) {
    match side {
        Side::North => (x + door_offset as i32, y as int),
        Side::South => (x + door_offset as i32, y + h as i32 - 1),
        Side::West => (x as int, y + door_offset as i32),
        Side::East => (x + w as i32 - 1, y + door_offset as i32),
    }
}

pub open spec fn i32_range(v: int) -> bool {
    i32::MIN <= v <= i32::MAX
}

/// Place a room with a door on a given side at a relative offset along that side.
pub fn place_room_with_door(
    level: &mut Level,
    x: i32,
    y: i32,
    w: usize,
    h: usize,
    door_side: Side,
    door_offset: usize,
    wall: Tile,
)
    requires
        old(level).wf(),
        rect_fits(x, y, w as i32, h as i32),
        w > 2 && h > 2 ==> x < i32::MAX && y < i32::MAX && rect_fits(
            (x + 1) as i32,
            (y + 1) as i32,
            (w - 2) as i32,
            (h - 2) as i32,
        ),
        match door_side {
            Side::North => i32_range(x + door_offset as i32),
            Side::South => i32_range(x + door_offset as i32) && i32_range(y + h as i32)
                && i32_range(y + h as i32 - 1),
            Side::West => i32_range(y + door_offset as i32),
            Side::East => i32_range(x + w as i32) && i32_range(x + w as i32 - 1) && i32_range(
                y + door_offset as i32,
            ),
        },
    ensures
        final(level).wf(),
        final(level).width == old(level).width,
        final(level).height == old(level).height,
        final(level).cells() == set_cells(
            room_cells(old(level).cells(), x as int, y as int, w as int, h as int, wall),
            old(level).width as int,
            old(level).height as int,
            door_cell(door_side, x, y, w, h, door_offset).0,
            door_cell(door_side, x, y, w, h, door_offset).1,
            Tile::DeckPlate,
        ),
{
    place_room(level, x, y, w, h, wall);
    let (dx, dy) = match door_side {
        Side::North => (x + door_offset as i32, y),
        Side::South => (x + door_offset as i32, y + h as i32 - 1),
        Side::West => (x, y + door_offset as i32),
        Side::East => (x + w as i32 - 1, y + door_offset as i32),
    };
    level.set(dx, dy, Tile::DeckPlate);
}

/// `c` lies on the half-open walk from `a` toward `b` (which excludes `b`).
pub open spec fn between_excl(a: int, b: int, c: int) -> bool {
    if a <= b {
        a <= c < b
    } else {
        b < c <= a
    }
}

/// The L-shaped path from `(x1, y1)` to `(x2, y2)`: the horizontal leg along row `y1`,
/// then the vertical leg along column `x2`, end point included.
pub open spec fn l_path(x1: int, y1: int, x2: int, y2: int) -> spec_fn(int, int) -> bool {
    |c: int, r: int|
        (r == y1 && between_excl(x1, x2, c)) || (c == x2 && (between_excl(y1, y2, r) || r == y2))
}

/// Carve an L-shaped corridor between two points (horizontal first, then vertical).
pub fn place_corridor(level: &mut Level, x1: i32, y1: i32, x2: i32, y2: i32)
    requires
        old(level).wf(),
    ensures
        final(level).wf(),
        final(level).width == old(level).width,
        final(level).height == old(level).height,
        final(level).cells() == paint(old(level).cells(), l_path(x1 as int, y1 as int, x2 as int, y2 as int), Tile::DeckPlate),
{
    let ghost orig = level.cells();
    let ghost lw = level.width as int;
    let ghost lh = level.height as int;
    let ghost t = Tile::DeckPlate;
    proof {
        level.lemma_wf_dims();
        lemma_paint_none(orig, lw, lh, |c: int, r: int| r == y1 && between_excl(x1 as int, x1 as int, c), t);
    }
    let mut cx = x1;
    let dx: i32 = if x2 > x1 { 1 } else { -1 };
    while cx != x2
        invariant
            level.wf(),
            level.width == lw,
            level.height == lh,
            grid_dims(orig, lw, lh),
            t == Tile::DeckPlate,
            dx == (if x2 > x1 { 1i32 } else { -1i32 }),
            between_excl(x1 as int, x2 as int, cx as int) || cx == x2,
            level.cells() == paint(orig, |c: int, r: int| r == y1 && between_excl(x1 as int, cx as int, c), t),
        decreases if dx > 0 { x2 - cx } else { cx - x2 },
    {
        let ghost p = |c: int, r: int| r == y1 && between_excl(x1 as int, cx as int, c);
        level.set(cx, y1, Tile::DeckPlate);
        proof {
            lemma_paint_set(orig, lw, lh, p, cx as int, y1 as int, t);
        }
        let ghost old_cx = cx;
        cx = cx + dx;
        proof {
            let q = |c: int, r: int| r == y1 && between_excl(x1 as int, cx as int, c);
            let p2 = |c: int, r: int| p(c, r) || (c == old_cx && r == y1);
            assert forall|c: int, r: int| #[trigger] p2(c, r) == q(c, r) by {
                if dx > 0 {} else {}
            }
            lemma_paint_ext(orig, p2, q, t);
        }
    }
    let ghost hor = |c: int, r: int| r == y1 && between_excl(x1 as int, x2 as int, c);
    proof {
        lemma_paint_ext(orig, |c: int, r: int| hor(c, r) || (c == x2 && between_excl(y1 as int, y1 as int, r)),
            |c: int, r: int| r == y1 && between_excl(x1 as int, cx as int, c), t);
    }
    let mut cy = y1;
    let dy: i32 = if y2 > y1 { 1 } else { -1 };
    while cy != y2
        invariant
            level.wf(),
            level.width == lw,
            level.height == lh,
            grid_dims(orig, lw, lh),
            t == Tile::DeckPlate,
            dy == (if y2 > y1 { 1i32 } else { -1i32 }),
            between_excl(y1 as int, y2 as int, cy as int) || cy == y2,
            hor == (|c: int, r: int| r == y1 && between_excl(x1 as int, x2 as int, c)),
            level.cells() == paint(orig, |c: int, r: int| hor(c, r) || (c == x2 && between_excl(y1 as int, cy as int, r)), t),
        decreases if dy > 0 { y2 - cy } else { cy - y2 },
    {
        let ghost p = |c: int, r: int| hor(c, r) || (c == x2 && between_excl(y1 as int, cy as int, r));
        level.set(x2, cy, Tile::DeckPlate);
        proof {
            lemma_paint_set(orig, lw, lh, p, x2 as int, cy as int, t);
        }
        let ghost old_cy = cy;
        cy = cy + dy;
        proof {
            let q = |c: int, r: int| hor(c, r) || (c == x2 && between_excl(y1 as int, cy as int, r));
            let p2 = |c: int, r: int| p(c, r) || (c == x2 && r == old_cy);
            assert forall|c: int, r: int| #[trigger] p2(c, r) == q(c, r) by {
                if dy > 0 {} else {}
            }
            lemma_paint_ext(orig, p2, q, t);
        }
    }
    let ghost p = |c: int, r: int| hor(c, r) || (c == x2 && between_excl(y1 as int, y2 as int, r));
    level.set(x2, y2, Tile::DeckPlate);
    proof {
        lemma_paint_set(orig, lw, lh, p, x2 as int, y2 as int, t);
        lemma_paint_ext(orig, |c: int, r: int| p(c, r) || (c == x2 && r == y2),
            l_path(x1 as int, y1 as int, x2 as int, y2 as int), t);
    }
}

} // verus!

verus! {

/// Place a pair of stairs connecting two levels at the same (x, y).
/// Caller is responsible for ensuring both levels exist.
pub fn place_stairs(levels: &mut [Level], z_from: usize, z_to: usize, x: i32, y: i32)
    requires
        z_from < old(levels)@.len(),
        z_to < old(levels)@.len(),
        old(levels)@[z_from as int].wf(),
        old(levels)@[z_to as int].wf(),
    ensures
        final(levels)@.len() == old(levels)@.len(),
        forall|z: int| 0 <= z < old(levels)@.len() && z != z_from && z != z_to
            ==> #[trigger] final(levels)@[z] == old(levels)@[z],
        final(levels)@[z_from as int].wf(),
        final(levels)@[z_to as int].wf(),
        final(levels)@[z_from as int].width == old(levels)@[z_from as int].width,
        final(levels)@[z_from as int].height == old(levels)@[z_from as int].height,
        final(levels)@[z_to as int].width == old(levels)@[z_to as int].width,
        final(levels)@[z_to as int].height == old(levels)@[z_to as int].height,
        z_from != z_to ==> final(levels)@[z_from as int].cells() == old(levels)@[z_from as int].cells_after_set(
            x as int,
            y as int,
            if z_to > z_from { Tile::StairsUp } else { Tile::StairsDown },
        ),
        z_from != z_to ==> final(levels)@[z_to as int].cells() == old(levels)@[z_to as int].cells_after_set(
            x as int,
            y as int,
            if z_to > z_from { Tile::StairsDown } else { Tile::StairsUp },
        ),
        z_from == z_to ==> final(levels)@[z_to as int].cells() == old(levels)@[z_to as int].cells_after_set(
            x as int,
            y as int,
            Tile::StairsUp,
        ),
{
    if z_to > z_from {
        levels[z_from].set(x, y, Tile::StairsUp);
        levels[z_to].set(x, y, Tile::StairsDown);
    } else {
        levels[z_from].set(x, y, Tile::StairsDown);
        let ghost mid = levels@[z_to as int];
        levels[z_to].set(x, y, Tile::StairsUp);
        proof {
            if z_from == z_to {
                let o = old(levels)@[z_to as int];
                o.lemma_wf_dims();
                assert(mid.cells() == o.cells_after_set(x as int, y as int, Tile::StairsDown));
                if o.in_bounds(x as int, y as int) {
                    let a = levels@[z_to as int].cells();
                    let b = o.cells_after_set(x as int, y as int, Tile::StairsUp);
                    assert forall|r: int| 0 <= r < a.len() implies #[trigger] a[r] == b[r] by {
                        assert(a[r] =~= b[r]);
                    }
                    assert(a =~= b);
                }
            }
        }
    }
}

/// Pseudo-random roughness added to the squared radius of a blob at offset `(dx, dy)`.
pub open spec fn blob_fudge(dx: i32, dy: i32) -> i32 {
    (dx.wrapping_mul(7) ^ dy.wrapping_mul(13)) & 3
}

/// Cells of the rough disc of `radius` around `(cx, cy)`.
pub open spec fn in_blob(cx: int, cy: int, radius: int) -> spec_fn(int, int) -> bool {
    |c: int, r: int|
        -radius <= c - cx <= radius && -radius <= r - cy <= radius && (c - cx) * (c - cx) + (r - cy) * (
        r - cy) <= radius * radius + blob_fudge((c - cx) as i32, (r - cy) as i32)
}

/// Carve an organic blob (rough circle) of floor tiles.
pub fn carve_blob(level: &mut Level, cx: i32, cy: i32, radius: i32, tile: Tile)
    requires
        old(level).wf(),
        radius >= 0 ==> 2 * radius * radius <= i32::MAX && i32_range(cx - radius) && i32_range(
            cx + radius,
        ) && i32_range(cy - radius) && i32_range(cy + radius),
        radius < 0 ==> radius * radius <= i32::MAX,
    ensures
        final(level).wf(),
        final(level).width == old(level).width,
        final(level).height == old(level).height,
        final(level).cells() == paint(old(level).cells(), in_blob(cx as int, cy as int, radius as int), tile),
{
    let ghost orig = level.cells();
    let ghost lw = level.width as int;
    let ghost lh = level.height as int;
    let ghost blob = in_blob(cx as int, cy as int, radius as int);
    proof {
        level.lemma_wf_dims();
        assert(0 <= radius * radius <= i32::MAX) by (nonlinear_arith)
            requires
                radius >= 0 ==> 2 * radius * radius <= i32::MAX,
                radius < 0 ==> radius * radius <= i32::MAX,
        ;
    }
    let r2 = radius * radius;
    if radius < 0 {
        proof {
            lemma_paint_none(orig, lw, lh, blob, tile);
        }
        return;
    }
    proof {
        lemma_paint_none(orig, lw, lh, |c: int, r: int| blob(c, r) && r - cy < -radius, tile);
        assert(radius <= 32767 && 2 * r2 <= i32::MAX) by (nonlinear_arith)
            requires
                0 <= radius,
                r2 == radius * radius,
                2 * radius * radius <= i32::MAX,
        ;
    }
    let mut dy = -radius;
    while dy <= radius
        invariant
            0 <= radius,
            2 * radius * radius <= i32::MAX,
            r2 == radius * radius,
            radius <= 32767,
            2 * r2 <= i32::MAX,
            i32_range(cx - radius) && i32_range(cx + radius) && i32_range(cy - radius) && i32_range(cy + radius),
            -radius <= dy <= radius + 1,
            blob == in_blob(cx as int, cy as int, radius as int),
            level.wf(),
            level.width == lw,
            level.height == lh,
            grid_dims(orig, lw, lh),
            level.cells() == paint(orig, |c: int, r: int| blob(c, r) && r - cy < dy, tile),
        decreases radius + 1 - dy,
    {
        let mut dx = -radius;
        proof {
            lemma_paint_ext(orig, |c: int, r: int| blob(c, r) && r - cy < dy,
                |c: int, r: int| blob(c, r) && (r - cy < dy || (r - cy == dy && c - cx < dx)), tile);
        }
        while dx <= radius
            invariant
                0 <= radius,
                2 * radius * radius <= i32::MAX,
                r2 == radius * radius,
                radius <= 32767,
                2 * r2 <= i32::MAX,
                i32_range(cx - radius) && i32_range(cx + radius) && i32_range(cy - radius) && i32_range(cy + radius),
                -radius <= dy <= radius,
                -radius <= dx <= radius + 1,
                blob == in_blob(cx as int, cy as int, radius as int),
                level.wf(),
                level.width == lw,
                level.height == lh,
                grid_dims(orig, lw, lh),
                level.cells() == paint(orig, |c: int, r: int| blob(c, r) && (r - cy < dy || (r - cy == dy && c - cx < dx)), tile),
            decreases radius + 1 - dx,
        {
            let ghost p = |c: int, r: int| blob(c, r) && (r - cy < dy || (r - cy == dy && c - cx < dx));
            proof {
                assert(0 <= dx * dx <= radius * radius && 0 <= dy * dy <= radius * radius
                    && dx * dx + dy * dy <= 2 * radius * radius) by (nonlinear_arith)
                    requires
                        -radius <= dx <= radius,
                        -radius <= dy <= radius,
                ;
            }
            let d2 = dx * dx + dy * dy;
            let fudge = (dx.wrapping_mul(7) ^ dy.wrapping_mul(13)) & 3;
            assert(0 <= fudge <= 3) by (bit_vector)
                requires
                    fudge == (dx.wrapping_mul(7) ^ dy.wrapping_mul(13)) & 3,
            ;
            let hit = d2 <= r2 + fudge;
            if hit {
                level.set(cx + dx, cy + dy, tile);
                proof {
                    lemma_paint_set(orig, lw, lh, p, (cx + dx) as int, (cy + dy) as int, tile);
                }
            }
            let ghost old_dx = dx;
            dx = dx + 1;
            proof {
                let q = |c: int, r: int| blob(c, r) && (r - cy < dy || (r - cy == dy && c - cx < dx));
                if hit {
                    let p2 = |c: int, r: int| p(c, r) || (c == cx + old_dx && r == cy + dy);
                    assert forall|c: int, r: int| #[trigger] p2(c, r) == q(c, r) by {}
                    lemma_paint_ext(orig, p2, q, tile);
                } else {
                    assert forall|c: int, r: int| #[trigger] p(c, r) == q(c, r) by {
                        if c == cx + old_dx && r == cy + dy {
                            assert((c - cx) as i32 == old_dx && (r - cy) as i32 == dy);
                        }
                    }
                    lemma_paint_ext(orig, p, q, tile);
                }
            }
        }
        let ghost old_dy = dy;
        dy = dy + 1;
        proof {
            lemma_paint_ext(orig, |c: int, r: int| blob(c, r) && (r - cy < old_dy || (r - cy == old_dy && c - cx < radius + 1)),
                |c: int, r: int| blob(c, r) && r - cy < dy, tile);
        }
    }
    proof {
        lemma_paint_ext(orig, |c: int, r: int| blob(c, r) && r - cy < radius + 1, blob, tile);
    }
}

} // verus!

verus! {

/// The square of half-width `radius` around `(x, y)`.
pub open spec fn in_square(x: int, y: int, radius: int) -> spec_fn(int, int) -> bool {
    |c: int, r: int| -radius <= c - x <= radius && -radius <= r - y <= radius
}

/// Ensure a square of walkable floor around a point (useful around stairs).
pub fn clear_around(level: &mut Level, x: i32, y: i32, radius: i32)
    requires
        old(level).wf(),
        radius > i32::MIN,
        radius >= 0 ==> i32_range(x - radius) && i32_range(x + radius) && i32_range(y - radius)
            && i32_range(y + radius),
    ensures
        final(level).wf(),
        final(level).width == old(level).width,
        final(level).height == old(level).height,
        final(level).cells() == paint(
            old(level).cells(),
            |c: int, r: int| in_square(x as int, y as int, radius as int)(c, r) && !old(level).tile_at(c, r).spec_walkable(),
            Tile::DeckPlate,
        ),
{
    let ghost orig_level = *level;
    let ghost orig = level.cells();
    let ghost lw = level.width as int;
    let ghost lh = level.height as int;
    let ghost t = Tile::DeckPlate;
    let ghost want = |c: int, r: int| in_square(x as int, y as int, radius as int)(c, r) && !orig_level.tile_at(c, r).spec_walkable();
    proof {
        level.lemma_wf_dims();
    }
    if radius < 0 {
        proof {
            lemma_paint_none(orig, lw, lh, want, t);
        }
        return;
    }
    proof {
        lemma_paint_none(orig, lw, lh, |c: int, r: int| want(c, r) && r - y < -radius, t);
    }
    let mut dy: i64 = -(radius as i64);
    while dy <= radius as i64
        invariant
            0 <= radius,
            i32_range(x - radius) && i32_range(x + radius) && i32_range(y - radius) && i32_range(y + radius),
            -radius <= dy <= radius + 1,
            t == Tile::DeckPlate,
            orig == orig_level.cells(),
            orig_level.wf(),
            want == (|c: int, r: int| in_square(x as int, y as int, radius as int)(c, r) && !orig_level.tile_at(c, r).spec_walkable()),
            level.wf(),
            level.width == lw,
            level.height == lh,
            orig_level.width == lw,
            orig_level.height == lh,
            grid_dims(orig, lw, lh),
            level.cells() == paint(orig, |c: int, r: int| want(c, r) && r - y < dy, t),
        decreases radius + 1 - dy,
    {
        let mut dx: i64 = -(radius as i64);
        proof {
            lemma_paint_ext(orig, |c: int, r: int| want(c, r) && r - y < dy,
                |c: int, r: int| want(c, r) && (r - y < dy || (r - y == dy && c - x < dx)), t);
        }
        while dx <= radius as i64
            invariant
                0 <= radius,
                i32_range(x - radius) && i32_range(x + radius) && i32_range(y - radius) && i32_range(y + radius),
                -radius <= dy <= radius,
                -radius <= dx <= radius + 1,
                t == Tile::DeckPlate,
                orig == orig_level.cells(),
                orig_level.wf(),
                want == (|c: int, r: int| in_square(x as int, y as int, radius as int)(c, r) && !orig_level.tile_at(c, r).spec_walkable()),
                level.wf(),
                level.width == lw,
                level.height == lh,
                orig_level.width == lw,
                orig_level.height == lh,
                grid_dims(orig, lw, lh),
                level.cells() == paint(orig, |c: int, r: int| want(c, r) && (r - y < dy || (r - y == dy && c - x < dx)), t),
            decreases radius + 1 - dx,
        {
            let ghost p = |c: int, r: int| want(c, r) && (r - y < dy || (r - y == dy && c - x < dx));
            let cx = x + dx as i32;
            let cy = y + dy as i32;
            let cur = level.get(cx, cy);
            let hit = match cur {
                Some(tl) => !tl.walkable(),
                None => false,
            };
            proof {
                if orig_level.in_bounds((x + dx) as int, (y + dy) as int) {
                    orig_level.lemma_wf_dims();
                    assert(level.cells()[(y + dy) as int][(x + dx) as int] == orig[(y + dy) as int][(x + dx) as int]);
                }
            }
            if hit {
                level.set(cx, cy, Tile::DeckPlate);
                proof {
                    lemma_paint_set(orig, lw, lh, p, (x + dx) as int, (y + dy) as int, t);
                }
            }
            let ghost old_dx = dx;
            dx = dx + 1;
            proof {
                let q = |c: int, r: int| want(c, r) && (r - y < dy || (r - y == dy && c - x < dx));
                if hit {
                    let p2 = |c: int, r: int| p(c, r) || (c == x + old_dx && r == y + dy);
                    assert forall|c: int, r: int| #[trigger] p2(c, r) == q(c, r) by {}
                    lemma_paint_ext(orig, p2, q, t);
                } else {
                    assert forall|c: int, r: int| 0 <= c < lw && 0 <= r < lh implies #[trigger] p(c, r) == q(c, r) by {}
                    lemma_paint_agree(orig, lw, lh, p, q, t);
                }
            }
        }
        let ghost old_dy = dy;
        dy = dy + 1;
        proof {
            lemma_paint_ext(orig, |c: int, r: int| want(c, r) && (r - y < old_dy || (r - y == old_dy && c - x < radius + 1)),
                |c: int, r: int| want(c, r) && r - y < dy, t);
        }
    }
    proof {
        lemma_paint_ext(orig, |c: int, r: int| want(c, r) && r - y < radius + 1, want, t);
    }
}

/// Painting agrees wherever the two predicates agree on the grid.
pub proof fn lemma_paint_agree(cells: Seq<Seq<Tile>>, w: int, h: int, p: spec_fn(int, int) -> bool, q: spec_fn(int, int) -> bool, tile: Tile)
    requires
        grid_dims(cells, w, h),
        forall|c: int, r: int| 0 <= c < w && 0 <= r < h ==> #[trigger] p(c, r) == q(c, r),
    ensures
        paint(cells, p, tile) == paint(cells, q, tile),
{
    assert forall|r: int| 0 <= r < cells.len() implies #[trigger] paint(cells, p, tile)[r] == paint(cells, q, tile)[r] by {
        assert(cells[r].len() == w);
        assert(paint(cells, p, tile)[r] =~= paint(cells, q, tile)[r]);
    }
    assert(paint(cells, p, tile) =~= paint(cells, q, tile));
}

} // verus!

verus! {

/// The vertical leg of an L path at column `x2`: rows from `y1` through `y2`.
pub open spec fn vertical_leg(y1: int, y2: int, r: int) -> bool {
    between_excl(y1, y2, r) || r == y2
}

/// A three-tile-wide L-shaped corridor: the rows `y1 - 1 ..= y1 + 1` of the horizontal
/// leg and the columns `x2 - 1 ..= x2 + 1` of the vertical leg.
pub open spec fn wide_l_path(x1: int, y1: int, x2: int, y2: int) -> spec_fn(int, int) -> bool {
    |c: int, r: int|
        (y1 - 1 <= r <= y1 + 1 && between_excl(x1, x2, c)) || (x2 - 1 <= c <= x2 + 1
            && vertical_leg(y1, y2, r))
}

/// Place a wide corridor (3 tiles across) between two points.
pub fn place_wide_corridor(level: &mut Level, x1: i32, y1: i32, x2: i32, y2: i32)
    requires
        old(level).wf(),
        i32_range(x2 - 1) && i32_range(x2 + 1),
        x1 != x2 ==> i32_range(y1 - 1) && i32_range(y1 + 1),
    ensures
        final(level).wf(),
        final(level).width == old(level).width,
        final(level).height == old(level).height,
        final(level).cells() == paint(old(level).cells(), wide_l_path(x1 as int, y1 as int, x2 as int, y2 as int), Tile::DeckPlate),
{
    let ghost orig = level.cells();
    let ghost lw = level.width as int;
    let ghost lh = level.height as int;
    let ghost t = Tile::DeckPlate;
    let ghost done = |o: int| |c: int, r: int|
        (y1 - 1 <= r < y1 + o && between_excl(x1 as int, x2 as int, c)) || (x2 - 1 <= c < x2 + o
            && vertical_leg(y1 as int, y2 as int, r));
    proof {
        level.lemma_wf_dims();
        lemma_paint_none(orig, lw, lh, done(-1), t);
    }
    let mut offset: i32 = -1;
    while offset <= 1
        invariant
            -1 <= offset <= 2,
            i32_range(x2 - 1) && i32_range(x2 + 1),
            x1 != x2 ==> i32_range(y1 - 1) && i32_range(y1 + 1),
            t == Tile::DeckPlate,
            done == (|o: int| |c: int, r: int|
                (y1 - 1 <= r < y1 + o && between_excl(x1 as int, x2 as int, c)) || (x2 - 1 <= c < x2 + o
                    && vertical_leg(y1 as int, y2 as int, r))),
            level.wf(),
            level.width == lw,
            level.height == lh,
            grid_dims(orig, lw, lh),
            level.cells() == paint(orig, done(offset as int), t),
        decreases 2 - offset,
    {
        let ghost base = done(offset as int);
        // horizontal leg
        let mut cx = x1;
        let dx: i32 = if x2 > x1 { 1 } else { -1 };
        proof {
            lemma_paint_ext(orig, base, |c: int, r: int| base(c, r) || (r == y1 + offset && between_excl(x1 as int, x1 as int, c)), t);
        }
        while cx != x2
            invariant
                -1 <= offset <= 1,
                x1 != x2 ==> i32_range(y1 - 1) && i32_range(y1 + 1),
                t == Tile::DeckPlate,
                level.wf(),
                level.width == lw,
                level.height == lh,
                grid_dims(orig, lw, lh),
                dx == (if x2 > x1 { 1i32 } else { -1i32 }),
                between_excl(x1 as int, x2 as int, cx as int) || cx == x2,
                level.cells() == paint(orig, |c: int, r: int| base(c, r) || (r == y1 + offset && between_excl(x1 as int, cx as int, c)), t),
            decreases if dx > 0 { x2 - cx } else { cx - x2 },
        {
            let ghost p = |c: int, r: int| base(c, r) || (r == y1 + offset && between_excl(x1 as int, cx as int, c));
            level.set(cx, y1 + offset, Tile::DeckPlate);
            proof {
                lemma_paint_set(orig, lw, lh, p, cx as int, (y1 + offset) as int, t);
            }
            let ghost old_cx = cx;
            cx = cx + dx;
            proof {
                let q = |c: int, r: int| base(c, r) || (r == y1 + offset && between_excl(x1 as int, cx as int, c));
                let p2 = |c: int, r: int| p(c, r) || (c == old_cx && r == y1 + offset);
                assert forall|c: int, r: int| #[trigger] p2(c, r) == q(c, r) by {
                    if dx > 0 {} else {}
                }
                lemma_paint_ext(orig, p2, q, t);
            }
        }
        let ghost hor = |c: int, r: int| base(c, r) || (r == y1 + offset && between_excl(x1 as int, x2 as int, c));
        // vertical leg
        let mut cy = y1;
        let dy: i32 = if y2 > y1 { 1 } else { -1 };
        proof {
            lemma_paint_ext(orig, |c: int, r: int| base(c, r) || (r == y1 + offset && between_excl(x1 as int, cx as int, c)),
                |c: int, r: int| hor(c, r) || (c == x2 + offset && between_excl(y1 as int, y1 as int, r)), t);
        }
        while cy != y2
            invariant
                -1 <= offset <= 1,
                i32_range(x2 - 1) && i32_range(x2 + 1),
                t == Tile::DeckPlate,
                level.wf(),
                level.width == lw,
                level.height == lh,
                grid_dims(orig, lw, lh),
                dy == (if y2 > y1 { 1i32 } else { -1i32 }),
                between_excl(y1 as int, y2 as int, cy as int) || cy == y2,
                level.cells() == paint(orig, |c: int, r: int| hor(c, r) || (c == x2 + offset && between_excl(y1 as int, cy as int, r)), t),
            decreases if dy > 0 { y2 - cy } else { cy - y2 },
        {
            let ghost p = |c: int, r: int| hor(c, r) || (c == x2 + offset && between_excl(y1 as int, cy as int, r));
            level.set(x2 + offset, cy, Tile::DeckPlate);
            proof {
                lemma_paint_set(orig, lw, lh, p, (x2 + offset) as int, cy as int, t);
            }
            let ghost old_cy = cy;
            cy = cy + dy;
            proof {
                let q = |c: int, r: int| hor(c, r) || (c == x2 + offset && between_excl(y1 as int, cy as int, r));
                let p2 = |c: int, r: int| p(c, r) || (c == x2 + offset && r == old_cy);
                assert forall|c: int, r: int| #[trigger] p2(c, r) == q(c, r) by {
                    if dy > 0 {} else {}
                }
                lemma_paint_ext(orig, p2, q, t);
            }
        }
        let ghost p = |c: int, r: int| hor(c, r) || (c == x2 + offset && between_excl(y1 as int, y2 as int, r));
        level.set(x2 + offset, y2, Tile::DeckPlate);
        let ghost old_offset = offset;
        offset = offset + 1;
        proof {
            lemma_paint_set(orig, lw, lh, p, (x2 + old_offset) as int, y2 as int, t);
            let p2 = |c: int, r: int| p(c, r) || (c == x2 + old_offset && r == y2);
            assert forall|c: int, r: int| #[trigger] p2(c, r) == done(offset as int)(c, r) by {}
            lemma_paint_ext(orig, p2, done(offset as int), t);
        }
    }
    proof {
        assert forall|c: int, r: int| #[trigger] done(2)(c, r) == wide_l_path(x1 as int, y1 as int, x2 as int, y2 as int)(c, r) by {}
        lemma_paint_ext(orig, done(2), wide_l_path(x1 as int, y1 as int, x2 as int, y2 as int), t);
    }
}

} // verus!
