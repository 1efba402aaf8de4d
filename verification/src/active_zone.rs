//! The zone currently in play: the ship's levels, merged with a destination's when docked.
use vstd::prelude::*;
use crate::galaxy::Location;
use crate::level::{grid_dims, Level, Tile};
use crate::galaxy::level_fits;
use crate::locations::icy_planet::{lemma_rewrite_ext, lemma_rewrite_step, rewrite, scanned};

verus! {

/// The currently rendered tile grid: the ship's levels and, when docked, the destination's.
pub struct ActiveZone {
    pub levels: Vec<Level>,
    pub width: usize,
    pub height: usize,
    pub depth: usize,
    /// Offset within the zone where the ship's (0, 0) tile lies.
    pub ship_origin: (i32, i32),
    /// When docked, the offset where the destination's (0, 0) tile lies.
    pub dest_origin: Option<(i32, i32)>,
    /// When docked, the destination's dimensions.
    pub dest_dims: Option<(usize, usize, usize)>,
}

impl ActiveZone {
    /// A zone holding only the ship, as in deep space: a copy of the ship's levels at the origin.
    pub fn ship_only(ship_loc: &Location) -> (zone: Self)
        ensures
            zone.width == ship_loc.width,
            zone.height == ship_loc.height,
            zone.depth == ship_loc.depth,
            zone.levels@.len() == ship_loc.levels@.len(),
            forall|z: int| 0 <= z < ship_loc.levels@.len() ==> {
                &&& (#[trigger] zone.levels@[z]).cells() == ship_loc.levels@[z].cells()
                &&& zone.levels@[z].width == ship_loc.levels@[z].width
                &&& zone.levels@[z].height == ship_loc.levels@[z].height
                &&& ship_loc.levels@[z].wf() ==> zone.levels@[z].wf()
            },
            zone.ship_origin == (0i32, 0i32),
            zone.dest_origin is None,
            zone.dest_dims is None,
    {
        let mut levels: Vec<Level> = Vec::new();
        let mut z: usize = 0;
        while z < ship_loc.levels.len()
            invariant
                z <= ship_loc.levels@.len(),
                levels@.len() == z,
                forall|k: int| 0 <= k < z ==> {
                    &&& (#[trigger] levels@[k]).cells() == ship_loc.levels@[k].cells()
                    &&& levels@[k].width == ship_loc.levels@[k].width
                    &&& levels@[k].height == ship_loc.levels@[k].height
                    &&& ship_loc.levels@[k].wf() ==> levels@[k].wf()
                },
            decreases ship_loc.levels@.len() - z,
        {
            levels.push(ship_loc.levels[z].duplicate());
            z = z + 1;
        }
        ActiveZone {
            levels,
            width: ship_loc.width,
            height: ship_loc.height,
            depth: ship_loc.depth,
            ship_origin: (0, 0),
            dest_origin: None,
            dest_dims: None,
        }
    }

    /// The level at depth `z`.
    pub fn level(&self, z: usize) -> (l: &Level)
        requires
            z < self.levels@.len(),
        ensures
            *l == self.levels@[z as int],
    {
        &self.levels[z]
    }

    /// The level at depth `z`, for writing.
    pub fn level_mut(&mut self, z: usize) -> (l: &mut Level)
        requires
            z < old(self).levels@.len(),
        ensures
            *l == old(self).levels@[z as int],
            final(self).levels@ == old(self).levels@.update(z as int, *final(l)),
            final(self).width == old(self).width,
            final(self).height == old(self).height,
            final(self).depth == old(self).depth,
            final(self).ship_origin == old(self).ship_origin,
            final(self).dest_origin == old(self).dest_origin,
            final(self).dest_dims == old(self).dest_dims,
    {
        &mut self.levels[z]
    }
}

/// The source tile that lands at `(c, r)` when `src` is laid at offset `(ox, oy)`.
pub open spec fn blit_rule(src: Level, ox: int, oy: int) -> spec_fn(int, int, Tile) -> Tile {
    |c: int, r: int, t: Tile| src.tile_at(c - ox, r - oy)
}

/// The tiles `src` covers when laid at offset `(ox, oy)`.
pub open spec fn covered(src: Level, ox: int, oy: int) -> spec_fn(int, int) -> bool {
    |c: int, r: int| 0 <= c - ox < src.width && 0 <= r - oy < src.height
}

/// The source tiles a row-by-row copy has passed before reaching source tile `(x, y)`.
pub open spec fn copied(src: Level, ox: int, oy: int, y: int, x: int) -> spec_fn(int, int) -> bool {
    |c: int, r: int| scanned(0, 0, src.width - 1, y, x)(c - ox, r - oy) && r - oy < src.height
}

/// Copies every tile of `src` into `dst` at offset `(ox, oy)`.
fn blit(dst: &mut Level, src: &Level, ox: i32, oy: i32)
    requires
        old(dst).wf(),
        src.wf(),
        0 <= ox,
        0 <= oy,
        ox + src.width <= old(dst).width,
        oy + src.height <= old(dst).height,
        old(dst).width <= i32::MAX,
        old(dst).height <= i32::MAX,
    ensures
        final(dst).wf(),
        final(dst).width == old(dst).width,
        final(dst).height == old(dst).height,
        final(dst).cells() == rewrite(old(dst).cells(), covered(*src, ox as int, oy as int), blit_rule(*src, ox as int, oy as int)),
{
    let ghost c0 = dst.cells();
    let ghost w = dst.width as int;
    let ghost h = dst.height as int;
    let ghost f = blit_rule(*src, ox as int, oy as int);
    proof {
        dst.lemma_wf_dims();
        let e = rewrite(c0, copied(*src, ox as int, oy as int, 0, 0), f);
        assert forall|r: int| 0 <= r < c0.len() implies #[trigger] e[r] == c0[r] by {
            assert(e[r] =~= c0[r]);
        }
        assert(e =~= c0);
    }
    let mut y: usize = 0;
    while y < src.height
        invariant
            dst.wf(),
            src.wf(),
            dst.width == w,
            dst.height == h,
            grid_dims(c0, w, h),
            0 <= ox && 0 <= oy,
            ox + src.width <= w <= i32::MAX,
            oy + src.height <= h <= i32::MAX,
            y <= src.height,
            f == blit_rule(*src, ox as int, oy as int),
            dst.cells() == rewrite(c0, copied(*src, ox as int, oy as int, y as int, 0), f),
        decreases src.height - y,
    {
        let mut x: usize = 0;
        while x < src.width
            invariant
                dst.wf(),
                src.wf(),
                dst.width == w,
                dst.height == h,
                grid_dims(c0, w, h),
                0 <= ox && 0 <= oy,
                ox + src.width <= w <= i32::MAX,
                oy + src.height <= h <= i32::MAX,
                y < src.height,
                x <= src.width,
                f == blit_rule(*src, ox as int, oy as int),
                dst.cells() == rewrite(c0, copied(*src, ox as int, oy as int, y as int, x as int), f),
            decreases src.width - x,
        {
            let t = src.tiles[y][x];
            let lx = ox + x as i32;
            let ly = oy + y as i32;
            proof {
                lemma_rewrite_step(c0, w, h, copied(*src, ox as int, oy as int, y as int, x as int),
                    copied(*src, ox as int, oy as int, y as int, x + 1), f, lx as int, ly as int, true, t);
            }
            dst.set(lx, ly, t);
            x = x + 1;
        }
        proof {
            lemma_rewrite_ext(c0, copied(*src, ox as int, oy as int, y as int, x as int), copied(*src, ox as int, oy as int, y + 1, 0), f);
        }
        y = y + 1;
    }
    proof {
        lemma_rewrite_ext(c0, copied(*src, ox as int, oy as int, y as int, 0), covered(*src, ox as int, oy as int), f);
    }
}

/// The tile at `(x, y)` of level `z` of the zone docked from `ship` laid at `so` and `dest` laid
/// at `dor`: the destination's where it lies, else the ship's, else vacuum.
pub open spec fn docked_tile(ship: Location, dest: Location, so: (int, int), dor: (int, int), z: int, x: int, y: int) -> Tile {
    if z < dest.depth && 0 <= x - dor.0 < dest.width && 0 <= y - dor.1 < dest.height {
        dest.levels@[z].tile_at(x - dor.0, y - dor.1)
    } else if z < ship.depth && 0 <= x - so.0 < ship.width && 0 <= y - so.1 < ship.height {
        ship.levels@[z].tile_at(x - so.0, y - so.1)
    } else {
        Tile::Vacuum
    }
}

pub open spec fn imin(a: int, b: int) -> int {
    if a <= b { a } else { b }
}

pub open spec fn imax(a: int, b: int) -> int {
    if a >= b { a } else { b }
}

/// A size or coordinate small enough for the docking arithmetic.
pub open spec fn dock_small(v: int) -> bool {
    -0x0fff_ffff <= v <= 0x0fff_ffff
}

/// `zone` is the ship `ship_loc` docked at `dest` with the landing spot `spot` just south of the
/// airlock at `airlock`: both laid on one grid spanning them (the ship's `(0, 0)` and the
/// destination's at the offsets recorded), as deep as the deeper of the two, the destination's
/// tiles covering the ship's where they overlap and vacuum filling the rest.
pub open spec fn docked_zone(ship_loc: Location, dest: Location, spot: (i32, i32), airlock: (i32, i32), zone: ActiveZone) -> bool {
    let dor = (airlock.0 - spot.0, airlock.1 + 1 - spot.1);
    let min_x = imin(0, dor.0);
    let min_y = imin(0, dor.1);
    let so = (-min_x, -min_y);
    let dsh = (dor.0 - min_x, dor.1 - min_y);
    &&& zone.width == imax(ship_loc.width as int, dor.0 + dest.width) - min_x
    &&& zone.height == imax(ship_loc.height as int, dor.1 + dest.height) - min_y
    &&& zone.depth == imax(ship_loc.depth as int, dest.depth as int)
    &&& zone.ship_origin == (so.0 as i32, so.1 as i32)
    &&& zone.dest_origin == Some((dsh.0 as i32, dsh.1 as i32))
    &&& zone.dest_dims == Some((dest.width, dest.height, dest.depth))
    &&& zone.levels@.len() == zone.depth
    &&& forall|z: int| 0 <= z < zone.depth ==> level_fits(#[trigger] zone.levels@[z], zone.width, zone.height)
    &&& forall|z: int, x: int, y: int| 0 <= z < zone.depth && 0 <= x < zone.width && 0 <= y < zone.height
        ==> (#[trigger] zone.levels@[z].cells()[y][x]) == docked_tile(ship_loc, dest, so, dsh, z, x, y)
}

impl ActiveZone {
    /// The zone of the ship docked at `dest` with the landing spot `spot` just south of the
    /// ship's airlock at `airlock`.
    pub fn docked_at_spot(ship_loc: &Location, dest: &Location, spot: (i32, i32), airlock: (i32, i32)) -> (zone: Self)
        requires
            ship_loc.wf(),
            dest.wf(),
            ship_loc.width <= 0x0fff_ffff && ship_loc.height <= 0x0fff_ffff,
            dest.width <= 0x0fff_ffff && dest.height <= 0x0fff_ffff,
            dock_small(spot.0 as int) && dock_small(spot.1 as int),
            dock_small(airlock.0 as int) && dock_small(airlock.1 as int),
        ensures
            docked_zone(*ship_loc, *dest, spot, airlock, zone),
    {
        let dor = (airlock.0 - spot.0, airlock.1 + 1 - spot.1);
        let min_x = if dor.0 < 0 { dor.0 } else { 0 };
        let min_y = if dor.1 < 0 { dor.1 } else { 0 };
        let dx1 = dor.0 + dest.width as i32;
        let dy1 = dor.1 + dest.height as i32;
        let max_x = if (ship_loc.width as i32) >= dx1 { ship_loc.width as i32 } else { dx1 };
        let max_y = if (ship_loc.height as i32) >= dy1 { ship_loc.height as i32 } else { dy1 };
        let total_w = (max_x - min_x) as usize;
        let total_h = (max_y - min_y) as usize;
        let total_d = if ship_loc.depth >= dest.depth { ship_loc.depth } else { dest.depth };
        let ship_origin = (0 - min_x, 0 - min_y);
        let dest_origin = (dor.0 - min_x, dor.1 - min_y);
        let ghost so = (ship_origin.0 as int, ship_origin.1 as int);
        let ghost dsh = (dest_origin.0 as int, dest_origin.1 as int);
        let mut levels: Vec<Level> = Vec::new();
        let mut z: usize = 0;
        while z < total_d
            invariant
                ship_loc.wf(),
                dest.wf(),
                z <= total_d,
                total_d == imax(ship_loc.depth as int, dest.depth as int),
                total_w <= i32::MAX && total_h <= i32::MAX,
                0 <= ship_origin.0 && 0 <= ship_origin.1 && 0 <= dest_origin.0 && 0 <= dest_origin.1,
                ship_origin.0 + ship_loc.width <= total_w && ship_origin.1 + ship_loc.height <= total_h,
                dest_origin.0 + dest.width <= total_w && dest_origin.1 + dest.height <= total_h,
                so == (ship_origin.0 as int, ship_origin.1 as int),
                dsh == (dest_origin.0 as int, dest_origin.1 as int),
                levels@.len() == z,
                forall|k: int| 0 <= k < z ==> level_fits(#[trigger] levels@[k], total_w, total_h),
                forall|k: int, x: int, y: int| 0 <= k < z && 0 <= x < total_w && 0 <= y < total_h
                    ==> (#[trigger] levels@[k].cells()[y][x]) == docked_tile(*ship_loc, *dest, so, dsh, k, x, y),
            decreases total_d - z,
        {
            let mut level = Level::new(total_w, total_h, Tile::Vacuum);
            let ghost fresh = level;
            let ghost blank = level.cells();
            proof { level.lemma_wf_dims(); }
            if z < ship_loc.depth {
                assert(level_fits(ship_loc.levels@[z as int], ship_loc.width, ship_loc.height));
                blit(&mut level, &ship_loc.levels[z], ship_origin.0, ship_origin.1);
            }
            let ghost mid = level.cells();
            if z < dest.depth {
                assert(level_fits(dest.levels@[z as int], dest.width, dest.height));
                blit(&mut level, &dest.levels[z], dest_origin.0, dest_origin.1);
            }
            proof {
                level.lemma_wf_dims();
                assert forall|x: int, y: int| 0 <= x < total_w && 0 <= y < total_h
                    implies #[trigger] level.cells()[y][x] == docked_tile(*ship_loc, *dest, so, dsh, z as int, x, y) by {
                    assert(blank[y][x] == Tile::Vacuum) by {
                        assert(fresh.in_bounds(x, y));
                    }
                }
            }
            let ghost before = levels@;
            levels.push(level);
            proof {
                assert forall|k: int, x: int, y: int| 0 <= k < z + 1 && 0 <= x < total_w && 0 <= y < total_h
                    implies (#[trigger] levels@[k].cells()[y][x]) == docked_tile(*ship_loc, *dest, so, dsh, k, x, y) by {
                    if k < z {
                        assert(levels@[k] == before[k]);
                    }
                }
                assert forall|k: int| 0 <= k < z + 1 implies level_fits(#[trigger] levels@[k], total_w, total_h) by {
                    if k < z {
                        assert(levels@[k] == before[k]);
                    }
                }
            }
            z = z + 1;
        }
        ActiveZone {
            levels,
            width: total_w,
            height: total_h,
            depth: total_d,
            ship_origin,
            dest_origin: Some(dest_origin),
            dest_dims: Some((dest.width, dest.height, dest.depth)),
        }
    }
}

impl ActiveZone {
    /// The zone of the ship docked at `dest` on its landing spot number `landing_spot_idx` of
    /// `landing_spots`, the ship's airlock being at `airlock`; `None` when there is no such spot.
    pub fn docked(ship_loc: &Location, dest: &Location, landing_spots: &Vec<(i32, i32)>, landing_spot_idx: usize,
        airlock: (i32, i32)) -> (zone: Option<Self>)
        requires
            ship_loc.wf(),
            dest.wf(),
            ship_loc.width <= 0x0fff_ffff && ship_loc.height <= 0x0fff_ffff,
            dest.width <= 0x0fff_ffff && dest.height <= 0x0fff_ffff,
            forall|k: int| 0 <= k < landing_spots@.len() ==> dock_small((#[trigger] landing_spots@[k]).0 as int)
                && dock_small(landing_spots@[k].1 as int),
            dock_small(airlock.0 as int) && dock_small(airlock.1 as int),
        ensures
            zone is None <==> landing_spot_idx >= landing_spots@.len(),
            zone matches Some(z) ==> docked_zone(*ship_loc, *dest, landing_spots@[landing_spot_idx as int], airlock, z),
    {
        if landing_spot_idx >= landing_spots.len() {
            return None;
        }
        let spot = landing_spots[landing_spot_idx];
        assert(dock_small(landing_spots@[landing_spot_idx as int].0 as int));
        Some(ActiveZone::docked_at_spot(ship_loc, dest, spot, airlock))
    }
}

} // verus!
