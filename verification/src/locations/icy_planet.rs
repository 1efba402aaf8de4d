//! The icy planet's village pieces: trampled snow paths, dug rooms and cellar corridors.
use vstd::prelude::*;
use crate::level::{between_excl, fill_rect, grid_dims, in_rect, lemma_paint_ext, lemma_paint_none, lemma_paint_set, paint, set_cells, Level, Tile};
use crate::galaxy::{level_fits, Location};
use crate::locations::station_gen::{filled_grid, lemma_filled_cells};

verus! {

/// Open snow: ground a path may be trampled into.
pub open spec fn spec_snowy(t: Tile) -> bool {
    t == Tile::BrightGround || t == Tile::Ground || t == Tile::SmallRocks
}

pub fn snowy(t: Tile) -> (b: bool)
    ensures
        b == spec_snowy(t),
{
    match t {
        Tile::BrightGround | Tile::Ground | Tile::SmallRocks => true,
        _ => false,
    }
}

/// The grid with the open snow of `region` trampled into ground.
pub open spec fn tread(cells: Seq<Seq<Tile>>, region: spec_fn(int, int) -> bool) -> Seq<Seq<Tile>> {
    Seq::new(
        cells.len(),
        |r: int| Seq::new(cells[r].len(), |c: int| if region(c, r) && spec_snowy(cells[r][c]) { Tile::Ground } else { cells[r][c] }),
    )
}

pub open spec fn one(x: int, y: int) -> spec_fn(int, int) -> bool {
    |c: int, r: int| c == x && r == y
}

pub open spec fn union(p: spec_fn(int, int) -> bool, q: spec_fn(int, int) -> bool) -> spec_fn(int, int) -> bool {
    |c: int, r: int| p(c, r) || q(c, r)
}

/// Trampling twice is trampling the union: ground is itself open snow.
proof fn lemma_tread_compose(cells: Seq<Seq<Tile>>, p: spec_fn(int, int) -> bool, q: spec_fn(int, int) -> bool)
    ensures
        tread(tread(cells, p), q) == tread(cells, union(p, q)),
{
    let a = tread(tread(cells, p), q);
    let b = tread(cells, union(p, q));
    assert forall|r: int| 0 <= r < cells.len() implies a[r] =~= b[r] by {}
    assert(a =~= b);
}

proof fn lemma_tread_ext(cells: Seq<Seq<Tile>>, p: spec_fn(int, int) -> bool, q: spec_fn(int, int) -> bool)
    requires
        forall|c: int, r: int| #[trigger] p(c, r) == q(c, r),
    ensures
        tread(cells, p) == tread(cells, q),
{
    let a = tread(cells, p);
    let b = tread(cells, q);
    assert forall|r: int| 0 <= r < cells.len() implies a[r] =~= b[r] by {
        assert forall|c: int| 0 <= c < a[r].len() implies a[r][c] == b[r][c] by {
            assert(p(c, r) == q(c, r));
        }
    }
    assert(a =~= b);
}

/// Tramples the tile at `(x, y)` when it is open snow.
fn tread_at(level: &mut Level, x: i32, y: i32)
    requires
        old(level).wf(),
    ensures
        final(level).wf(),
        final(level).width == old(level).width,
        final(level).height == old(level).height,
        final(level).cells() == tread(old(level).cells(), one(x as int, y as int)),
{
    proof { level.lemma_wf_dims(); }
    let ghost c0 = level.cells();
    let hit = match level.get(x, y) {
        Some(t) => snowy(t),
        None => false,
    };
    if hit {
        level.set(x, y, Tile::Ground);
    }
    proof {
        let b = tread(c0, one(x as int, y as int));
        assert forall|r: int| 0 <= r < c0.len() implies level.cells()[r] =~= b[r] by {}
        assert(level.cells() =~= b);
    }
}

/// The tiles of the path from `(x1, y1)` to `(x2, y2)`: down or up column `x1` first, then
/// along row `y2`, ending on the target.
pub open spec fn v_path(x1: int, y1: int, x2: int, y2: int) -> spec_fn(int, int) -> bool {
    |c: int, r: int| (c == x1 && between_excl(y1, y2, r)) || (r == y2 && (between_excl(x1, x2, c) || c == x2))
}

/// The vertical leg walked so far: column `x1` from `y1` up to, not including, `y`.
pub open spec fn col_leg(x1: int, y1: int, y: int) -> spec_fn(int, int) -> bool {
    |c: int, r: int| c == x1 && between_excl(y1, y, r)
}

/// The whole vertical leg and the horizontal leg along row `y2` walked so far, from `x1` up to,
/// not including, `x`.
pub open spec fn row_leg(x1: int, y1: int, y2: int, x: int) -> spec_fn(int, int) -> bool {
    |c: int, r: int| (c == x1 && between_excl(y1, y2, r)) || (r == y2 && between_excl(x1, x, c))
}

/// A trampled path (vertical leg first) that only turns open snow into ground, so it weaves
/// between houses instead of cutting through them.
pub fn carve_path(level: &mut Level, from: (i32, i32), to: (i32, i32))
    requires
        old(level).wf(),
    ensures
        final(level).wf(),
        final(level).width == old(level).width,
        final(level).height == old(level).height,
        final(level).cells() == tread(old(level).cells(), v_path(from.0 as int, from.1 as int, to.0 as int, to.1 as int)),
{
    let ghost c0 = level.cells();
    let (x, mut y) = from;
    let ghost x1 = from.0 as int;
    let ghost y1 = from.1 as int;
    proof {
        let e = tread(c0, |c: int, r: int| false);
        assert forall|r: int| 0 <= r < c0.len() implies e[r] =~= c0[r] by {}
        assert(e =~= c0);
        lemma_tread_ext(c0, |c: int, r: int| false, col_leg(x1, y1, y as int));
    }
    while y != to.1
        invariant
            level.wf(),
            level.width == old(level).width,
            level.height == old(level).height,
            x == from.0,
            x1 == from.0 as int,
            y1 == from.1 as int,
            between_excl(y1, to.1 as int, y as int) || y == to.1,
            level.cells() == tread(c0, col_leg(x1, y1, y as int)),
        decreases if to.1 >= y { to.1 - y } else { y - to.1 },
    {
        tread_at(level, x, y);
        let step: i32 = if to.1 > y { 1 } else { -1 };
        proof {
            assert forall|c: int, r: int| #[trigger] union(col_leg(x1, y1, y as int), one(x as int, y as int))(c, r)
                == (c == x1 && between_excl(y1, y + step, r)) by {}
            lemma_tread_compose(c0, col_leg(x1, y1, y as int), one(x as int, y as int));
            lemma_tread_ext(c0, union(col_leg(x1, y1, y as int), one(x as int, y as int)),
                col_leg(x1, y1, y + step));
        }
        y = y + step;
    }
    let mut x = x;
    proof {
        lemma_tread_ext(c0, col_leg(x1, y1, y as int),
            row_leg(x1, y1, to.1 as int, x as int));
    }
    while x != to.0
        invariant
            level.wf(),
            level.width == old(level).width,
            level.height == old(level).height,
            y == to.1,
            x1 == from.0 as int,
            y1 == from.1 as int,
            between_excl(x1, to.0 as int, x as int) || x == to.0,
            level.cells() == tread(c0, row_leg(x1, y1, to.1 as int, x as int)),
        decreases if to.0 >= x { to.0 - x } else { x - to.0 },
    {
        tread_at(level, x, y);
        let step: i32 = if to.0 > x { 1 } else { -1 };
        proof {
            let p = row_leg(x1, y1, to.1 as int, x as int);
            assert forall|c: int, r: int| #[trigger] union(p, one(x as int, y as int))(c, r)
                == ((c == x1 && between_excl(y1, to.1 as int, r)) || (r == to.1 && between_excl(x1, x + step, c))) by {}
            lemma_tread_compose(c0, p, one(x as int, y as int));
            lemma_tread_ext(c0, union(p, one(x as int, y as int)),
                row_leg(x1, y1, to.1 as int, x + step));
        }
        x = x + step;
    }
    tread_at(level, x, y);
    proof {
        let p = row_leg(x1, y1, to.1 as int, to.0 as int);
        lemma_tread_compose(c0, p, one(x as int, y as int));
        lemma_tread_ext(c0, union(p, one(x as int, y as int)), v_path(x1, y1, to.0 as int, to.1 as int));
    }
}

/// Fills the rectangle from `(x0, y0)` to `(x1, y1)`, both corners included, with `floor`.
pub fn carve_room(level: &mut Level, x0: i32, y0: i32, x1: i32, y1: i32, floor: Tile)
    requires
        old(level).wf(),
        x1 - x0 < i32::MAX,
        y1 - y0 < i32::MAX,
    ensures
        final(level).wf(),
        final(level).width == old(level).width,
        final(level).height == old(level).height,
        final(level).cells() == paint(old(level).cells(), rect_incl(x0 as int, y0 as int, x1 as int, y1 as int), floor),
{
    let ghost c0 = level.cells();
    if x1 >= x0 && y1 >= y0 {
        let w = (x1 - x0 + 1) as usize;
        let h = (y1 - y0 + 1) as usize;
        fill_rect(level, x0, y0, w, h, floor);
        proof {
            lemma_paint_ext(c0, in_rect(x0 as int, y0 as int, w as i32 as int, h as i32 as int),
                rect_incl(x0 as int, y0 as int, x1 as int, y1 as int), floor);
        }
    } else {
        proof {
            level.lemma_wf_dims();
            lemma_paint_none(c0, level.width as int, level.height as int, rect_incl(x0 as int, y0 as int, x1 as int, y1 as int), floor);
        }
    }
}

/// The tiles a two-wide dig over `path` reaches: each path tile, its right neighbour and the one
/// below it.
pub open spec fn dug(path: spec_fn(int, int) -> bool) -> spec_fn(int, int) -> bool {
    |c: int, r: int| path(c, r) || path(c - 1, r) || path(c, r - 1)
}

/// Digs `(x, y)`, its right neighbour and the tile below it out as cave floor.
fn dig(level: &mut Level, x: i32, y: i32, Ghost(c0): Ghost<Seq<Seq<Tile>>>, Ghost(p): Ghost<spec_fn(int, int) -> bool>)
    requires
        old(level).wf(),
        x < i32::MAX,
        y < i32::MAX,
        grid_dims(c0, old(level).width as int, old(level).height as int),
        old(level).cells() == paint(c0, p, Tile::CaveFloor),
    ensures
        final(level).wf(),
        final(level).width == old(level).width,
        final(level).height == old(level).height,
        final(level).cells() == paint(c0, |c: int, r: int| p(c, r) || dug(one(x as int, y as int))(c, r), Tile::CaveFloor),
{
    let ghost w = level.width as int;
    let ghost h = level.height as int;
    level.set(x, y, Tile::CaveFloor);
    proof { lemma_paint_set(c0, w, h, p, x as int, y as int, Tile::CaveFloor); }
    let ghost p1 = |c: int, r: int| p(c, r) || (c == x && r == y);
    level.set(x + 1, y, Tile::CaveFloor);
    proof { lemma_paint_set(c0, w, h, p1, x + 1, y as int, Tile::CaveFloor); }
    let ghost p2 = |c: int, r: int| p1(c, r) || (c == x + 1 && r == y);
    level.set(x, y + 1, Tile::CaveFloor);
    proof {
        lemma_paint_set(c0, w, h, p2, x as int, y + 1, Tile::CaveFloor);
        lemma_paint_ext(c0, |c: int, r: int| p2(c, r) || (c == x && r == y + 1),
            |c: int, r: int| p(c, r) || dug(one(x as int, y as int))(c, r), Tile::CaveFloor);
    }
}

/// The tiles of the L-shaped walk from `(fx, fy)` to `(tx, ty)`: along row `fy` first, then
/// down or up column `tx`, ending on the target.
pub open spec fn cellar_legs(fx: int, fy: int, tx: int, ty: int) -> spec_fn(int, int) -> bool {
    |c: int, r: int| (r == fy && between_excl(fx, tx, c)) || (c == tx && (between_excl(fy, ty, r) || r == ty))
}

/// A two-wide cellar corridor from `from` to `to`, along the row first and then down or up
/// the column, dug out as cave floor.
pub fn carve_corridor(level: &mut Level, from: (i32, i32), to: (i32, i32))
    requires
        old(level).wf(),
        from.0 < i32::MAX && from.1 < i32::MAX && to.0 < i32::MAX && to.1 < i32::MAX,
    ensures
        final(level).wf(),
        final(level).width == old(level).width,
        final(level).height == old(level).height,
        final(level).cells() == paint(old(level).cells(), dug(cellar_legs(from.0 as int, from.1 as int, to.0 as int, to.1 as int)), Tile::CaveFloor),
{
    let ghost c0 = level.cells();
    let ghost w = level.width as int;
    let ghost h = level.height as int;
    proof {
        level.lemma_wf_dims();
        lemma_paint_none(c0, w, h, |c: int, r: int| false, Tile::CaveFloor);
        lemma_paint_ext(c0, |c: int, r: int| false, dug(|c: int, r: int| r == from.1 && between_excl(from.0 as int, from.0 as int, c)), Tile::CaveFloor);
    }
    let (mut x, y) = from;
    while x != to.0
        invariant
            level.wf(),
            level.width == old(level).width,
            level.height == old(level).height,
            w == level.width,
            h == level.height,
            grid_dims(c0, w, h),
            y == from.1,
            from.0 < i32::MAX && from.1 < i32::MAX && to.0 < i32::MAX && to.1 < i32::MAX,
            between_excl(from.0 as int, to.0 as int, x as int) || x == to.0,
            level.cells() == paint(c0, dug(|c: int, r: int| r == from.1 && between_excl(from.0 as int, x as int, c)), Tile::CaveFloor),
        decreases if to.0 >= x { to.0 - x } else { x - to.0 },
    {
        dig(level, x, y, Ghost(c0), Ghost(dug(|c: int, r: int| r == from.1 && between_excl(from.0 as int, x as int, c))));
        let step: i32 = if to.0 > x { 1 } else { -1 };
        proof {
            lemma_paint_ext(c0,
                |c: int, r: int| dug(|c: int, r: int| r == from.1 && between_excl(from.0 as int, x as int, c))(c, r) || dug(one(x as int, y as int))(c, r),
                dug(|c: int, r: int| r == from.1 && between_excl(from.0 as int, x + step, c)), Tile::CaveFloor);
        }
        x = x + step;
    }
    let mut y = y;
    proof {
        lemma_paint_ext(c0, dug(|c: int, r: int| r == from.1 && between_excl(from.0 as int, x as int, c)),
            dug(|c: int, r: int| (r == from.1 && between_excl(from.0 as int, to.0 as int, c)) || (c == to.0 && between_excl(from.1 as int, y as int, r))),
            Tile::CaveFloor);
    }
    while y != to.1
        invariant
            level.wf(),
            level.width == old(level).width,
            level.height == old(level).height,
            w == level.width,
            h == level.height,
            grid_dims(c0, w, h),
            x == to.0,
            from.0 < i32::MAX && from.1 < i32::MAX && to.0 < i32::MAX && to.1 < i32::MAX,
            between_excl(from.1 as int, to.1 as int, y as int) || y == to.1,
            level.cells() == paint(c0, dug(|c: int, r: int| (r == from.1 && between_excl(from.0 as int, to.0 as int, c))
                || (c == to.0 && between_excl(from.1 as int, y as int, r))), Tile::CaveFloor),
        decreases if to.1 >= y { to.1 - y } else { y - to.1 },
    {
        let ghost p = dug(|c: int, r: int| (r == from.1 && between_excl(from.0 as int, to.0 as int, c))
            || (c == to.0 && between_excl(from.1 as int, y as int, r)));
        dig(level, x, y, Ghost(c0), Ghost(p));
        let step: i32 = if to.1 > y { 1 } else { -1 };
        proof {
            lemma_paint_ext(c0,
                |c: int, r: int| p(c, r) || dug(one(x as int, y as int))(c, r),
                dug(|c: int, r: int| (r == from.1 && between_excl(from.0 as int, to.0 as int, c))
                    || (c == to.0 && between_excl(from.1 as int, y + step, r))), Tile::CaveFloor);
        }
        y = y + step;
    }
    let ghost p = dug(|c: int, r: int| (r == from.1 && between_excl(from.0 as int, to.0 as int, c))
        || (c == to.0 && between_excl(from.1 as int, to.1 as int, r)));
    dig(level, x, y, Ghost(c0), Ghost(p));
    proof {
        lemma_paint_ext(c0,
            |c: int, r: int| p(c, r) || dug(one(x as int, y as int))(c, r),
            dug(cellar_legs(from.0 as int, from.1 as int, to.0 as int, to.1 as int)), Tile::CaveFloor);
    }
}

/// Side of the icy planet's surface.
pub const SIZE: usize = 300;
/// The village's footprint.
pub const VILLAGE_W: i32 = 46;
pub const VILLAGE_H: i32 = 34;

/// Ground the village may stand on: open snow, or when `snow_only` is off any dry walkable
/// ground but the ship dock.
pub open spec fn village_ground(t: Tile, snow_only: bool) -> bool {
    if snow_only { spec_snowy(t) } else { t.spec_walkable() && !t.spec_is_liquid() && t != Tile::ShipDock }
}

/// The village with its top-left corner at `(ox, oy)`, with a margin of two, lies on village
/// ground and clear of every entrance.
pub open spec fn site_ok(level: Level, entrances: Seq<(i32, i32)>, ox: int, oy: int, snow_only: bool) -> bool {
    &&& forall|x: int, y: int| ox - 2 <= x < ox + VILLAGE_W + 2 && oy - 2 <= y < oy + VILLAGE_H + 2
        ==> (#[trigger] level.tile_opt(x, y) matches Some(t) && village_ground(t, snow_only))
    &&& forall|i: int| 0 <= i < entrances.len() ==> {
        let e = #[trigger] entrances[i];
        e.0 < ox - 2 || e.0 >= ox + VILLAGE_W + 2 || e.1 < oy - 2 || e.1 >= oy + VILLAGE_H + 2
    }
}

/// The corners tried: even coordinates from 4, leaving a margin of four on the far sides.
pub open spec fn site_candidate(ox: int, oy: int) -> bool {
    &&& 4 <= ox < SIZE - VILLAGE_W - 4
    &&& 4 <= oy < SIZE - VILLAGE_H - 4
    &&& (ox - 4) % 2 == 0
    &&& (oy - 4) % 2 == 0
}

/// `v` clamped into `[lo, hi]`.
pub open spec fn clamp_int(v: int, lo: int, hi: int) -> int {
    if v < lo { lo } else if v > hi { hi } else { v }
}

/// Steps from the village's centre to the dock.
pub open spec fn site_distance(ox: int, oy: int, dock: (i32, i32)) -> int {
    let dx = ox + VILLAGE_W / 2 - dock.0;
    let dy = oy + VILLAGE_H / 2 - dock.1;
    (if dx < 0 { -dx } else { dx }) + (if dy < 0 { -dy } else { dy })
}

/// Whether the village fits at `(ox, oy)`.
fn village_fits(level: &Level, entrances: &[(i32, i32)], ox: i32, oy: i32, snow_only: bool) -> (b: bool)
    requires
        level.wf(),
        4 <= ox <= 1000,
        4 <= oy <= 1000,
    ensures
        b == site_ok(*level, entrances@, ox as int, oy as int, snow_only),
{
    let mut y = oy - 2;
    while y < oy + VILLAGE_H + 2
        invariant
            level.wf(),
            4 <= ox <= 1000,
            4 <= oy <= 1000,
            oy - 2 <= y <= oy + VILLAGE_H + 2,
            forall|x: int, yy: int| ox - 2 <= x < ox + VILLAGE_W + 2 && oy - 2 <= yy < y
                ==> (#[trigger] level.tile_opt(x, yy) matches Some(t) && village_ground(t, snow_only)),
        decreases oy + VILLAGE_H + 2 - y,
    {
        let mut x = ox - 2;
        while x < ox + VILLAGE_W + 2
            invariant
                level.wf(),
                4 <= ox <= 1000,
                4 <= oy <= 1000,
                oy - 2 <= y < oy + VILLAGE_H + 2,
                ox - 2 <= x <= ox + VILLAGE_W + 2,
                forall|xx: int, yy: int| ox - 2 <= xx < ox + VILLAGE_W + 2 && oy - 2 <= yy < y
                    ==> (#[trigger] level.tile_opt(xx, yy) matches Some(t) && village_ground(t, snow_only)),
                forall|xx: int| ox - 2 <= xx < x ==> (#[trigger] level.tile_opt(xx, y as int) matches Some(t) && village_ground(t, snow_only)),
            decreases ox + VILLAGE_W + 2 - x,
        {
            let ok = match level.get(x, y) {
                Some(t) => if snow_only { snowy(t) } else { t.walkable() && !t.is_liquid() && t != Tile::ShipDock },
                None => false,
            };
            if !ok {
                return false;
            }
            x = x + 1;
        }
        y = y + 1;
    }
    let mut i: usize = 0;
    while i < entrances.len()
        invariant
            4 <= ox <= 1000,
            4 <= oy <= 1000,
            i <= entrances@.len(),
            forall|j: int| 0 <= j < i ==> {
                let e = #[trigger] entrances@[j];
                e.0 < ox - 2 || e.0 >= ox + VILLAGE_W + 2 || e.1 < oy - 2 || e.1 >= oy + VILLAGE_H + 2
            },
        decreases entrances@.len() - i,
    {
        let (ex, ey) = entrances[i];
        if !(ex < ox - 2 || ex >= ox + VILLAGE_W + 2 || ey < oy - 2 || ey >= oy + VILLAGE_H + 2) {
            return false;
        }
        i = i + 1;
    }
    true
}

/// The first tried corner (rows from the top) nearest the dock among those where the village
/// fits, if any.
#[verifier::spinoff_prover]
pub fn best_village_site(level: &Level, entrances: &[(i32, i32)], dock: (i32, i32), snow_only: bool) -> (r: Option<(i32, i32)>)
    requires
        level.wf(),
    ensures
        r is None <==> forall|ox: int, oy: int| #[trigger] site_candidate(ox, oy) ==> !site_ok(*level, entrances@, ox, oy, snow_only),
        r matches Some(s) ==> {
            &&& site_candidate(s.0 as int, s.1 as int)
            &&& site_ok(*level, entrances@, s.0 as int, s.1 as int, snow_only)
            &&& forall|ox: int, oy: int| #[trigger] site_candidate(ox, oy) && site_ok(*level, entrances@, ox, oy, snow_only)
                ==> site_distance(ox, oy, dock) >= site_distance(s.0 as int, s.1 as int, dock)
            &&& forall|ox: int, oy: int| #[trigger] site_candidate(ox, oy) && site_ok(*level, entrances@, ox, oy, snow_only)
                && (oy < s.1 || (oy == s.1 && ox < s.0)) ==> site_distance(ox, oy, dock) > site_distance(s.0 as int, s.1 as int, dock)
        },
{
    let mut best: Option<(i32, i32)> = None;
    let mut best_d: i64 = 0;
    let mut oy: i32 = 4;
    while oy < SIZE as i32 - VILLAGE_H - 4
        invariant
            level.wf(),
            4 <= oy <= SIZE - VILLAGE_H - 4 + 1,
            (oy - 4) % 2 == 0,
            best is None ==> forall|cx: int, cy: int| #[trigger] site_candidate(cx, cy) && cy < oy
                ==> !site_ok(*level, entrances@, cx, cy, snow_only),
            best matches Some(s) ==> {
                &&& site_candidate(s.0 as int, s.1 as int)
                &&& s.1 < oy
                &&& site_ok(*level, entrances@, s.0 as int, s.1 as int, snow_only)
                &&& best_d == site_distance(s.0 as int, s.1 as int, dock)
                &&& forall|cx: int, cy: int| #[trigger] site_candidate(cx, cy) && cy < oy && site_ok(*level, entrances@, cx, cy, snow_only)
                    ==> site_distance(cx, cy, dock) >= best_d
                &&& forall|cx: int, cy: int| #[trigger] site_candidate(cx, cy) && site_ok(*level, entrances@, cx, cy, snow_only)
                    && (cy < s.1 || (cy == s.1 && cx < s.0)) ==> site_distance(cx, cy, dock) > best_d
            },
        decreases SIZE - VILLAGE_H - 4 - oy,
    {
        let mut ox: i32 = 4;
        while ox < SIZE as i32 - VILLAGE_W - 4
            invariant
                level.wf(),
                4 <= oy < SIZE - VILLAGE_H - 4,
                (oy - 4) % 2 == 0,
                4 <= ox <= SIZE - VILLAGE_W - 4 + 1,
                (ox - 4) % 2 == 0,
                best is None ==> forall|cx: int, cy: int| #[trigger] site_candidate(cx, cy) && (cy < oy || (cy == oy && cx < ox))
                    ==> !site_ok(*level, entrances@, cx, cy, snow_only),
                best matches Some(s) ==> {
                    &&& site_candidate(s.0 as int, s.1 as int)
                    &&& (s.1 < oy || (s.1 == oy && s.0 < ox))
                    &&& site_ok(*level, entrances@, s.0 as int, s.1 as int, snow_only)
                    &&& best_d == site_distance(s.0 as int, s.1 as int, dock)
                    &&& forall|cx: int, cy: int| #[trigger] site_candidate(cx, cy) && (cy < oy || (cy == oy && cx < ox))
                        && site_ok(*level, entrances@, cx, cy, snow_only) ==> site_distance(cx, cy, dock) >= best_d
                    &&& forall|cx: int, cy: int| #[trigger] site_candidate(cx, cy) && site_ok(*level, entrances@, cx, cy, snow_only)
                        && (cy < s.1 || (cy == s.1 && cx < s.0)) ==> site_distance(cx, cy, dock) > best_d
                },
            decreases SIZE - VILLAGE_W - 4 - ox,
        {
            if village_fits(level, entrances, ox, oy, snow_only) {
                let dx: i64 = ox as i64 + (VILLAGE_W / 2) as i64 - dock.0 as i64;
                let dy: i64 = oy as i64 + (VILLAGE_H / 2) as i64 - dock.1 as i64;
                let d: i64 = (if dx < 0 { -dx } else { dx }) + (if dy < 0 { -dy } else { dy });
                assert(d == site_distance(ox as int, oy as int, dock));
                let better = match best {
                    None => true,
                    Some(_) => d < best_d,
                };
                if better {
                    best = Some((ox, oy));
                    best_d = d;
                }
            }
            ox = ox + 2;
        }
        oy = oy + 2;
    }
    best
}

/// `r` is where the village goes on `level`: the nearest site to the dock on open snow, else on
/// any dry ground (the first in row order among equally near ones), else beside the dock,
/// clamped onto the surface.
pub open spec fn village_site(level: Level, entrances: Seq<(i32, i32)>, dock: (i32, i32), r: (i32, i32)) -> bool {
    ({
        let snow = exists|ox: int, oy: int| #[trigger] site_candidate(ox, oy) && site_ok(level, entrances, ox, oy, true);
        let dry = exists|ox: int, oy: int| #[trigger] site_candidate(ox, oy) && site_ok(level, entrances, ox, oy, false);
        &&& (snow || dry) ==> {
            let so = snow;
            &&& site_candidate(r.0 as int, r.1 as int)
            &&& site_ok(level, entrances, r.0 as int, r.1 as int, so)
            &&& forall|ox: int, oy: int| #[trigger] site_candidate(ox, oy) && site_ok(level, entrances, ox, oy, so)
                ==> site_distance(ox, oy, dock) >= site_distance(r.0 as int, r.1 as int, dock)
            &&& forall|ox: int, oy: int| #[trigger] site_candidate(ox, oy) && site_ok(level, entrances, ox, oy, so)
                && (oy < r.1 || (oy == r.1 && ox < r.0)) ==> site_distance(ox, oy, dock) > site_distance(r.0 as int, r.1 as int, dock)
        }
        &&& !(snow || dry) ==> r == (clamp_int(dock.0 + 8, 4, SIZE - VILLAGE_W - 4) as i32,
            clamp_int(dock.1 + 8, 4, SIZE - VILLAGE_H - 4) as i32)
    })
}

/// Where the village goes: the nearest site to the dock on open snow, else on any dry ground,
/// else beside the dock, clamped onto the surface.
pub fn find_village_site(level: &Level, entrances: &[(i32, i32)], dock: (i32, i32)) -> (r: (i32, i32))
    requires
        level.wf(),
        dock.0 <= i32::MAX - 8,
        dock.1 <= i32::MAX - 8,
    ensures
        village_site(*level, entrances@, dock, r),
        4 <= r.0 <= SIZE - VILLAGE_W - 4,
        4 <= r.1 <= SIZE - VILLAGE_H - 4,
{
    match best_village_site(level, entrances, dock, true) {
        Some(s) => s,
        None => match best_village_site(level, entrances, dock, false) {
            Some(s) => s,
            None => {
                let hi_x = SIZE as i32 - VILLAGE_W - 4;
                let hi_y = SIZE as i32 - VILLAGE_H - 4;
                let x = dock.0 + 8;
                let y = dock.1 + 8;
                (if x < 4 { 4 } else if x > hi_x { hi_x } else { x }, if y < 4 { 4 } else if y > hi_y { hi_y } else { y })
            },
        },
    }
}

/// The grid with each tile of `region` replaced by what `f` makes of it.
pub open spec fn rewrite(cells: Seq<Seq<Tile>>, region: spec_fn(int, int) -> bool, f: spec_fn(int, int, Tile) -> Tile) -> Seq<Seq<Tile>> {
    Seq::new(cells.len(), |r: int| Seq::new(cells[r].len(), |c: int| if region(c, r) { f(c, r, cells[r][c]) } else { cells[r][c] }))
}

/// The rectangle from `(x0, y0)` to `(x1, y1)`, both corners included.
pub open spec fn rect_incl(x0: int, y0: int, x1: int, y1: int) -> spec_fn(int, int) -> bool {
    |c: int, r: int| x0 <= c <= x1 && y0 <= r <= y1
}

/// The part of the rectangle from `(x0, y0)` across to column `x1` that a row-by-row scan has
/// passed before reaching `(x, y)`.
pub open spec fn scanned(x0: int, y0: int, x1: int, y: int, x: int) -> spec_fn(int, int) -> bool {
    |c: int, r: int| x0 <= c <= x1 && y0 <= r && (r < y || (r == y && c < x))
}

pub(crate) proof fn lemma_rewrite_ext(cells: Seq<Seq<Tile>>, p: spec_fn(int, int) -> bool, q: spec_fn(int, int) -> bool, f: spec_fn(int, int, Tile) -> Tile)
    requires
        forall|c: int, r: int| #[trigger] p(c, r) == q(c, r),
    ensures
        rewrite(cells, p, f) == rewrite(cells, q, f),
{
    assert forall|r: int| 0 <= r < cells.len() implies #[trigger] rewrite(cells, p, f)[r] == rewrite(cells, q, f)[r] by {
        assert(rewrite(cells, p, f)[r] =~= rewrite(cells, q, f)[r]);
    }
    assert(rewrite(cells, p, f) =~= rewrite(cells, q, f));
}

/// One more tile of a rewrite: written when `write`, left when `f` keeps it.
pub(crate) proof fn lemma_rewrite_step(c0: Seq<Seq<Tile>>, w: int, h: int, d: spec_fn(int, int) -> bool, d2: spec_fn(int, int) -> bool,
    f: spec_fn(int, int, Tile) -> Tile, x: int, y: int, write: bool, t: Tile)
    requires
        grid_dims(c0, w, h),
        forall|c: int, r: int| #[trigger] d2(c, r) == (d(c, r) || (c == x && r == y)),
        !d(x, y),
        write && 0 <= x < w && 0 <= y < h ==> t == f(x, y, c0[y][x]),
        !write && 0 <= x < w && 0 <= y < h ==> f(x, y, c0[y][x]) == c0[y][x],
    ensures
        (if write { set_cells(rewrite(c0, d, f), w, h, x, y, t) } else { rewrite(c0, d, f) }) == rewrite(c0, d2, f),
{
    let cur = rewrite(c0, d, f);
    let nxt = if write { set_cells(cur, w, h, x, y, t) } else { cur };
    let tgt = rewrite(c0, d2, f);
    assert forall|r: int| 0 <= r < h implies #[trigger] nxt[r] == tgt[r] by {
        assert(c0[r].len() == w);
        assert(nxt[r] =~= tgt[r]);
    }
    assert(nxt =~= tgt);
}

/// What claiming the village footprint makes of a tile: anything but open snow and the dock
/// becomes bright ground.
pub open spec fn claim_rule() -> spec_fn(int, int, Tile) -> Tile {
    |c: int, r: int, t: Tile| if !spec_snowy(t) && t != Tile::ShipDock { Tile::BrightGround } else { t }
}

/// Turns every tile of the footprint at `(ox, oy)` that is neither open snow nor the dock into
/// bright ground.
fn claim_footprint(level: &mut Level, ox: i32, oy: i32)
    requires
        old(level).wf(),
        0 <= ox <= 1000,
        0 <= oy <= 1000,
    ensures
        final(level).wf(),
        final(level).width == old(level).width,
        final(level).height == old(level).height,
        final(level).cells() == rewrite(old(level).cells(), rect_incl(ox as int, oy as int, ox + VILLAGE_W - 1, oy + VILLAGE_H - 1), claim_rule()),
{
    let ghost c0 = level.cells();
    let ghost w = level.width as int;
    let ghost h = level.height as int;
    let ghost x1 = ox + VILLAGE_W - 1;
    proof {
        level.lemma_wf_dims();
        let e = rewrite(c0, scanned(ox as int, oy as int, x1, oy as int, ox as int), claim_rule());
        assert forall|r: int| 0 <= r < c0.len() implies #[trigger] e[r] == c0[r] by {
            assert(e[r] =~= c0[r]);
        }
        assert(e =~= c0);
    }
    let mut y = oy;
    while y < oy + VILLAGE_H
        invariant
            level.wf(),
            level.width == w,
            level.height == h,
            grid_dims(c0, w, h),
            0 <= ox <= 1000,
            0 <= oy <= y <= oy + VILLAGE_H,
            oy <= 1000,
            x1 == ox + VILLAGE_W - 1,
            level.cells() == rewrite(c0, scanned(ox as int, oy as int, x1, y as int, ox as int), claim_rule()),
        decreases oy + VILLAGE_H - y,
    {
        let mut x = ox;
        while x < ox + VILLAGE_W
            invariant
                level.wf(),
                level.width == w,
                level.height == h,
                grid_dims(c0, w, h),
                0 <= ox <= x <= ox + VILLAGE_W,
                ox <= 1000 && oy <= 1000,
                0 <= oy <= y < oy + VILLAGE_H,
                x1 == ox + VILLAGE_W - 1,
                level.cells() == rewrite(c0, scanned(ox as int, oy as int, x1, y as int, x as int), claim_rule()),
            decreases ox + VILLAGE_W - x,
        {
            let ghost d = scanned(ox as int, oy as int, x1, y as int, x as int);
            let ghost d2 = scanned(ox as int, oy as int, x1, y as int, x + 1);
            proof { level.lemma_wf_dims(); }
            let t = match level.get(x, y) {
                Some(t) => t,
                None => Tile::Wall,
            };
            let write = !snowy(t) && t != Tile::ShipDock;
            proof {
                if 0 <= x < w && 0 <= y < h {
                    assert(level.cells()[y as int][x as int] == c0[y as int][x as int]);
                }
                lemma_rewrite_step(c0, w, h, d, d2, claim_rule(), x as int, y as int, write, Tile::BrightGround);
            }
            if write {
                level.set(x, y, Tile::BrightGround);
            }
            x = x + 1;
        }
        proof {
            lemma_rewrite_ext(c0, scanned(ox as int, oy as int, x1, y as int, x as int), scanned(ox as int, oy as int, x1, y + 1, ox as int), claim_rule());
        }
        y = y + 1;
    }
    proof {
        lemma_rewrite_ext(c0, scanned(ox as int, oy as int, x1, y as int, ox as int), rect_incl(ox as int, oy as int, x1, oy + VILLAGE_H - 1), claim_rule());
    }
}

/// A tile of the livestock pen from `(x0, y0)` to `(x1, y1)`: fence on its edge, trampled ground
/// inside.
pub open spec fn pen_rule(x0: int, y0: int, x1: int, y1: int) -> spec_fn(int, int, Tile) -> Tile {
    |c: int, r: int, t: Tile| if c == x0 || c == x1 || r == y0 || r == y1 { Tile::Fence } else { Tile::Ground }
}

/// Builds the pen from `(x0, y0)` to `(x1, y1)`.
fn stamp_pen(level: &mut Level, x0: i32, y0: i32, x1: i32, y1: i32)
    requires
        old(level).wf(),
        0 <= x0 <= x1 <= 1000,
        0 <= y0 <= y1 <= 1000,
    ensures
        final(level).wf(),
        final(level).width == old(level).width,
        final(level).height == old(level).height,
        final(level).cells() == rewrite(old(level).cells(), rect_incl(x0 as int, y0 as int, x1 as int, y1 as int),
            pen_rule(x0 as int, y0 as int, x1 as int, y1 as int)),
{
    let ghost c0 = level.cells();
    let ghost w = level.width as int;
    let ghost h = level.height as int;
    let ghost f = pen_rule(x0 as int, y0 as int, x1 as int, y1 as int);
    proof {
        level.lemma_wf_dims();
        let e = rewrite(c0, scanned(x0 as int, y0 as int, x1 as int, y0 as int, x0 as int), f);
        assert forall|r: int| 0 <= r < c0.len() implies #[trigger] e[r] == c0[r] by {
            assert(e[r] =~= c0[r]);
        }
        assert(e =~= c0);
    }
    let mut y = y0;
    while y <= y1
        invariant
            level.wf(),
            level.width == w,
            level.height == h,
            grid_dims(c0, w, h),
            0 <= x0 <= x1 <= 1000,
            0 <= y0 <= y1 <= 1000,
            y0 <= y <= y1 + 1,
            f == pen_rule(x0 as int, y0 as int, x1 as int, y1 as int),
            level.cells() == rewrite(c0, scanned(x0 as int, y0 as int, x1 as int, y as int, x0 as int), f),
        decreases y1 + 1 - y,
    {
        let mut x = x0;
        while x <= x1
            invariant
                level.wf(),
                level.width == w,
                level.height == h,
                grid_dims(c0, w, h),
                0 <= x0 <= x1 <= 1000,
                0 <= y0 <= y1 <= 1000,
                x0 <= x <= x1 + 1,
                y0 <= y <= y1,
                f == pen_rule(x0 as int, y0 as int, x1 as int, y1 as int),
                level.cells() == rewrite(c0, scanned(x0 as int, y0 as int, x1 as int, y as int, x as int), f),
            decreases x1 + 1 - x,
        {
            let edge = x == x0 || x == x1 || y == y0 || y == y1;
            let t = if edge { Tile::Fence } else { Tile::Ground };
            proof {
                lemma_rewrite_step(c0, w, h, scanned(x0 as int, y0 as int, x1 as int, y as int, x as int),
                    scanned(x0 as int, y0 as int, x1 as int, y as int, x + 1), f, x as int, y as int, true, t);
            }
            level.set(x, y, t);
            x = x + 1;
        }
        proof {
            lemma_rewrite_ext(c0, scanned(x0 as int, y0 as int, x1 as int, y as int, x as int), scanned(x0 as int, y0 as int, x1 as int, y + 1, x0 as int), f);
        }
        y = y + 1;
    }
    proof {
        lemma_rewrite_ext(c0, scanned(x0 as int, y0 as int, x1 as int, y as int, x0 as int), rect_incl(x0 as int, y0 as int, x1 as int, y1 as int), f);
    }
}

/// Tramples the open snow of the rectangle from `(x0, y0)` to `(x1, y1)` into ground.
fn trample_rect(level: &mut Level, x0: i32, y0: i32, x1: i32, y1: i32)
    requires
        old(level).wf(),
        0 <= x0 <= x1 <= 1000,
        0 <= y0 <= y1 <= 1000,
    ensures
        final(level).wf(),
        final(level).width == old(level).width,
        final(level).height == old(level).height,
        final(level).cells() == tread(old(level).cells(), rect_incl(x0 as int, y0 as int, x1 as int, y1 as int)),
{
    let ghost c0 = level.cells();
    proof {
        let e = tread(c0, scanned(x0 as int, y0 as int, x1 as int, y0 as int, x0 as int));
        assert forall|r: int| 0 <= r < c0.len() implies #[trigger] e[r] == c0[r] by {
            assert(e[r] =~= c0[r]);
        }
        assert(e =~= c0);
    }
    let mut y = y0;
    while y <= y1
        invariant
            level.wf(),
            level.width == old(level).width,
            level.height == old(level).height,
            0 <= x0 <= x1 <= 1000,
            0 <= y0 <= y1 <= 1000,
            y0 <= y <= y1 + 1,
            level.cells() == tread(c0, scanned(x0 as int, y0 as int, x1 as int, y as int, x0 as int)),
        decreases y1 + 1 - y,
    {
        let mut x = x0;
        while x <= x1
            invariant
                level.wf(),
                level.width == old(level).width,
                level.height == old(level).height,
                0 <= x0 <= x1 <= 1000,
                0 <= y0 <= y1 <= 1000,
                x0 <= x <= x1 + 1,
                y0 <= y <= y1,
                level.cells() == tread(c0, scanned(x0 as int, y0 as int, x1 as int, y as int, x as int)),
            decreases x1 + 1 - x,
        {
            tread_at(level, x, y);
            proof {
                let d = scanned(x0 as int, y0 as int, x1 as int, y as int, x as int);
                lemma_tread_compose(c0, d, one(x as int, y as int));
                lemma_tread_ext(c0, union(d, one(x as int, y as int)), scanned(x0 as int, y0 as int, x1 as int, y as int, x + 1));
            }
            x = x + 1;
        }
        proof {
            lemma_tread_ext(c0, scanned(x0 as int, y0 as int, x1 as int, y as int, x as int), scanned(x0 as int, y0 as int, x1 as int, y + 1, x0 as int));
        }
        y = y + 1;
    }
    proof {
        lemma_tread_ext(c0, scanned(x0 as int, y0 as int, x1 as int, y as int, x0 as int), rect_incl(x0 as int, y0 as int, x1 as int, y1 as int));
    }
}

/// Where the village's pieces stand: its corner, the plaza, the livestock pen's corners, the
/// cellar stairs and hatch, and the depth of the cellar level.
pub struct VillagePlan {
    pub origin: (i32, i32),
    pub plaza: (i32, i32),
    pub pen: (i32, i32, i32, i32),
    pub stairs: (i32, i32),
    pub hatch: (i32, i32),
    pub cellar_z: usize,
}

/// The tile in front of the door at `d`: one step toward the plaza's row.
pub open spec fn door_front(d: (int, int), plaza: (int, int)) -> (int, int) {
    (d.0, d.1 + if plaza.1 > d.1 { 1int } else if plaza.1 < d.1 { -1int } else { 0int })
}

/// The paths trampled from the front of each door (given from the village corner `o`) to the
/// plaza, in order.
pub open spec fn tread_paths(cells: Seq<Seq<Tile>>, o: (int, int), doors: Seq<(i32, i32)>, plaza: (int, int)) -> Seq<Seq<Tile>>
    decreases doors.len(),
{
    if doors.len() == 0 {
        cells
    } else {
        let f = door_front((o.0 + doors.last().0, o.1 + doors.last().1), plaza);
        tread(tread_paths(cells, o, doors.drop_last(), plaza), v_path(f.0, f.1, plaza.0, plaza.1))
    }
}

/// The surface once the village at `(ox, oy)` is laid out: its footprint claimed, the paths from
/// the doors to the plaza trampled, the plaza cleared and the pen built.
pub open spec fn village_surface(cells: Seq<Seq<Tile>>, ox: int, oy: int, doors: Seq<(i32, i32)>) -> Seq<Seq<Tile>> {
    let plaza = (ox + 21, oy + 16);
    let claimed = rewrite(cells, rect_incl(ox, oy, ox + VILLAGE_W - 1, oy + VILLAGE_H - 1), claim_rule());
    let trod = tread_paths(claimed, (ox, oy), doors, plaza);
    let cleared = tread(trod, rect_incl(plaza.0 - 3, plaza.1 - 2, plaza.0 + 3, plaza.1 + 2));
    rewrite(cleared, rect_incl(ox + 37, oy + 12, ox + 43, oy + 17), pen_rule(ox + 37, oy + 12, ox + 43, oy + 17))
}

/// The cellar dug out of rock under stairs `s` and hatch `h`: a timbered landing, a corridor to
/// the storage room under the hatch, and a rougher chamber beyond it.
pub open spec fn cellar_layout(cells: Seq<Seq<Tile>>, s: (int, int), h: (int, int)) -> Seq<Seq<Tile>> {
    let landing = paint(cells, rect_incl(s.0 - 1, s.1 - 1, s.0 + 5, s.1 + 4), Tile::WoodTile);
    let first = paint(landing, dug(cellar_legs(s.0 + 3, s.1 + 4, h.0, h.1)), Tile::CaveFloor);
    let storage = paint(first, rect_incl(h.0 - 3, h.1 - 2, h.0 + 3, h.1 + 3), Tile::WoodTile);
    let second = paint(storage, dug(cellar_legs(h.0 + 3, h.1 + 1, h.0 + 8, h.1 + 3)), Tile::CaveFloor);
    paint(second, rect_incl(h.0 + 8, h.1, h.0 + 14, h.1 + 5), Tile::CaveFloor)
}

/// Lays out the village's ground: the site `find_village_site` picks, its footprint claimed
/// (anything but open snow and the dock becomes bright ground), a trampled path from the front
/// of each house door (`house_doors`, from the village corner) to the plaza, the plaza cleared,
/// the fenced pen, and a new level of rock below with the cellar dug under the stairs (at
/// `stairs_offset` from the corner) and the hatch. The houses themselves and everything that
/// stands on the tiles are placed by the caller at the points of the plan.
pub fn build_village_tiles(loc: &mut Location, entrances: &[(i32, i32)], dock: (i32, i32), house_doors: &Vec<(i32, i32)>,
    stairs_offset: (i32, i32)) -> (plan: VillagePlan)
    requires
        old(loc).wf(),
        old(loc).depth >= 1,
        old(loc).depth < usize::MAX,
        dock.0 <= i32::MAX - 8,
        dock.1 <= i32::MAX - 8,
        forall|k: int| 0 <= k < house_doors@.len() ==> -100 <= (#[trigger] house_doors@[k]).0 <= 100 && -100 <= house_doors@[k].1 <= 100,
        -100 <= stairs_offset.0 <= 100,
        -100 <= stairs_offset.1 <= 100,
    ensures
        final(loc).wf(),
        final(loc).name == old(loc).name,
        final(loc).width == old(loc).width,
        final(loc).height == old(loc).height,
        final(loc).location_type == old(loc).location_type,
        final(loc).depth == old(loc).depth + 1,
        village_site(old(loc).levels@[0], entrances@, dock, plan.origin),
        plan.plaza.0 == plan.origin.0 + 21 && plan.plaza.1 == plan.origin.1 + 16,
        plan.hatch.0 == plan.origin.0 + 13 && plan.hatch.1 == plan.origin.1 + 16,
        plan.stairs.0 == plan.origin.0 + stairs_offset.0 && plan.stairs.1 == plan.origin.1 + stairs_offset.1,
        plan.pen.0 == plan.origin.0 + 37 && plan.pen.1 == plan.origin.1 + 12 && plan.pen.2 == plan.origin.0 + 43 && plan.pen.3 == plan.origin.1 + 17,
        plan.cellar_z == old(loc).depth,
        final(loc).levels@[0].cells() == village_surface(old(loc).levels@[0].cells(), plan.origin.0 as int, plan.origin.1 as int, house_doors@),
        forall|z: int| 0 < z < old(loc).depth ==> #[trigger] final(loc).levels@[z] == old(loc).levels@[z],
        final(loc).levels@[old(loc).depth as int].cells() == cellar_layout(filled_grid(old(loc).width as int, old(loc).height as int, Tile::CaveWall),
            (plan.stairs.0 as int, plan.stairs.1 as int), (plan.hatch.0 as int, plan.hatch.1 as int)),
{
    let ghost orig = *loc;
    let (ox, oy) = find_village_site(loc.level(0), entrances, dock);
    let plaza = (ox + 21, oy + 16);
    let ghost po = (ox as int, oy as int);
    let ghost pz = (plaza.0 as int, plaza.1 as int);
    let ghost c0 = loc.levels@[0].cells();
    {
        let level = loc.level_mut(0);
        claim_footprint(level, ox, oy);
        let ghost claimed = level.cells();
        let mut i: usize = 0;
        while i < house_doors.len()
            invariant
                level.wf(),
                level.width == orig.width,
                level.height == orig.height,
                4 <= ox <= 300 && 4 <= oy <= 300,
                plaza.0 == ox + 21 && plaza.1 == oy + 16,
                po == (ox as int, oy as int),
                pz == (plaza.0 as int, plaza.1 as int),
                i <= house_doors@.len(),
                forall|k: int| 0 <= k < house_doors@.len() ==> -100 <= (#[trigger] house_doors@[k]).0 <= 100 && -100 <= house_doors@[k].1 <= 100,
                level.cells() == tread_paths(claimed, po, house_doors@.take(i as int), pz),
            decreases house_doors@.len() - i,
        {
            let (dx, dy) = house_doors[i];
            assert(-100 <= house_doors@[i as int].0 <= 100 && -100 <= house_doors@[i as int].1 <= 100);
            let door = (ox + dx, oy + dy);
            let step: i32 = if plaza.1 > door.1 { 1 } else if plaza.1 < door.1 { -1 } else { 0 };
            let front = (door.0, door.1 + step);
            carve_path(level, front, plaza);
            proof {
                let t = house_doors@.take(i + 1);
                assert(t.drop_last() =~= house_doors@.take(i as int));
                assert(t.last() == (dx, dy));
            }
            i = i + 1;
        }
        proof { assert(house_doors@.take(house_doors@.len() as int) =~= house_doors@); }
        trample_rect(level, plaza.0 - 3, plaza.1 - 2, plaza.0 + 3, plaza.1 + 2);
        stamp_pen(level, ox + 37, oy + 12, ox + 43, oy + 17);
    }
    let ghost surface_levels = loc.levels@;
    let cellar_z = loc.levels.len();
    loc.levels.push(Level::new(loc.width, loc.height, Tile::CaveWall));
    loc.depth = loc.levels.len();
    let stairs = (ox + stairs_offset.0, oy + stairs_offset.1);
    let hatch = (ox + 13, oy + 16);
    proof {
        assert forall|z: int| 0 <= z < loc.depth implies level_fits(#[trigger] loc.levels@[z], loc.width, loc.height) by {
            if z < cellar_z {
                assert(loc.levels@[z] == surface_levels[z]);
            }
        }
        lemma_filled_cells(loc.levels@[cellar_z as int], loc.width, loc.height, Tile::CaveWall);
    }
    let ghost before_cellar = loc.levels@;
    {
        let level = loc.level_mut(cellar_z);
        carve_room(level, stairs.0 - 1, stairs.1 - 1, stairs.0 + 5, stairs.1 + 4, Tile::WoodTile);
        carve_corridor(level, (stairs.0 + 3, stairs.1 + 4), (hatch.0, hatch.1));
        carve_room(level, hatch.0 - 3, hatch.1 - 2, hatch.0 + 3, hatch.1 + 3, Tile::WoodTile);
        carve_corridor(level, (hatch.0 + 3, hatch.1 + 1), (hatch.0 + 8, hatch.1 + 3));
        carve_room(level, hatch.0 + 8, hatch.1, hatch.0 + 14, hatch.1 + 5, Tile::CaveFloor);
    }
    proof {
        assert forall|z: int| 0 <= z < loc.depth implies level_fits(#[trigger] loc.levels@[z], loc.width, loc.height) by {
            if z != cellar_z {
                assert(loc.levels@[z] == before_cellar[z]);
            }
        }
        assert forall|z: int| 0 < z < orig.depth implies #[trigger] loc.levels@[z] == orig.levels@[z] by {
            assert(loc.levels@[z] == before_cellar[z]);
            assert(before_cellar[z] == surface_levels[z]);
        }
        assert(loc.levels@[0] == before_cellar[0]);
    }
    VillagePlan { origin: (ox, oy), plaza, pen: (ox + 37, oy + 12, ox + 43, oy + 17), stairs, hatch, cellar_z }
}

} // verus!
