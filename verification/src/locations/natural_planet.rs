//! Natural planets: landing the ship in the largest open region.
use vstd::prelude::*;
use rand::rngs::SmallRng;
use crate::rng::small_range_usize;
use crate::level::{fill_rect, in_rect, paint, set_cells, Level, Tile};
use crate::locations::planet_gen::{
    cave_plan_ok, cave_steps, cave_sublevel_with, clear_around, clearing_within, dock_site, has_walkable, largest_labelled,
    lemma_dock_site, lemma_no_ground, nearest_ground, CaveSublevelPlan, CAVE_SMOOTH_PASSES,
};

verus! {

/// The grid once the dock lands at `s`: the rock of its 3x3 block cleared to grass, then the dock.
pub open spec fn natural_dock_cells(level: Level, s: (int, int)) -> Seq<Seq<Tile>> {
    set_cells(paint(level.cells(), clearing_within(level, s, i32::MAX - 1), Tile::Grass), level.width as int, level.height as int,
        s.0, s.1, Tile::ShipDock)
}

/// The grid once the dock lands at the centre of a level with nothing walkable: the centre's
/// 3x3 block turned to grass, then the dock.
pub open spec fn bare_dock_cells(level: Level) -> Seq<Seq<Tile>> {
    let cx = level.width as int / 2;
    let cy = level.height as int / 2;
    set_cells(paint(level.cells(), in_rect(cx - 1, cy - 1, 3, 3), Tile::Grass), level.width as int, level.height as int, cx, cy,
        Tile::ShipDock)
}

/// Lands the ship dock in the largest walkable region, on its tile nearest the centre (the first
/// such in the region's order), clearing the rock around it to grass; with nothing walkable, at
/// the centre on a cleared block. Returns where the dock stands.
pub fn place_ship_dock(level: &mut Level) -> (d: (i32, i32))
    requires
        old(level).wf(),
        old(level).width <= i32::MAX,
        old(level).height <= i32::MAX,
    ensures
        final(level).wf(),
        final(level).width == old(level).width,
        final(level).height == old(level).height,
        !has_walkable(*old(level)) ==> d == ((old(level).width / 2) as i32, (old(level).height / 2) as i32)
            && final(level).cells() == bare_dock_cells(*old(level)),
        has_walkable(*old(level)) ==> dock_site(*old(level), (d.0 as int, d.1 as int))
            && final(level).cells() == natural_dock_cells(*old(level), (d.0 as int, d.1 as int)),
{
    let ghost orig = *level;
    let w = level.width as i32;
    let h = level.height as i32;
    let (cx, cy) = (w / 2, h / 2);
    let (best, Ghost(lab), Ghost(root)) = largest_labelled(level);
    let k = match nearest_ground(level, &best) {
        Some(k) => k,
        None => {
            proof {
                lemma_no_ground(orig, best@, lab, root);
            }
            // No walkable region at all: clear the centre and land there.
            fill_rect(level, cx - 1, cy - 1, 3, 3, Tile::Grass);
            level.set(cx, cy, Tile::ShipDock);
            return (cx, cy);
        },
    };
    let (sx, sy) = best[k];
    let ghost s = (sx as int, sy as int);
    proof {
        assert(crate::locations::planet_gen::walk(orig, s));
        assert(has_walkable(orig));
        lemma_dock_site(orig, best@, lab, root, k as int);
    }
    clear_around(level, sx, sy, i32::MAX - 1, Tile::Grass);
    level.set(sx, sy, Tile::ShipDock);
    (sx, sy)
}

/// Solid ground of a natural planet: grass, tall grass, sand, bare ground, or cave rock and floor.
pub open spec fn spec_natural_solid(t: Tile) -> bool {
    t == Tile::Grass || t == Tile::TallGrass || t == Tile::Sand || t == Tile::Ground || t == Tile::CaveWall || t == Tile::CaveFloor
}

pub fn is_solid_ground(t: Tile) -> (b: bool)
    ensures
        b == spec_natural_solid(t),
{
    match t {
        Tile::Grass | Tile::TallGrass | Tile::Sand | Tile::Ground | Tile::CaveWall | Tile::CaveFloor => true,
        _ => false,
    }
}

/// Carves the cave under a natural planet from the automaton's seeded grid (rock on its rim),
/// as the planets' caves are carved, with cave mouths opening under the solid kinds of ground.
pub fn generate_cave_sublevel(loc: &mut crate::galaxy::Location, seeded: Vec<Vec<bool>>) -> (plan: CaveSublevelPlan)
    requires
        old(loc).wf(),
        old(loc).depth >= 2,
        old(loc).width == old(loc).height,
        2 <= old(loc).width <= i32::MAX,
        crate::map::rows_dims(seeded@, old(loc).width as int, old(loc).width as int),
        forall|x: int, y: int| 0 <= x < old(loc).width && 0 <= y < old(loc).width
            && (x == 0 || y == 0 || x == old(loc).width - 1 || y == old(loc).width - 1) ==> !#[trigger] seeded@[y]@[x],
    ensures
        final(loc).wf(),
        final(loc).name == old(loc).name,
        final(loc).width == old(loc).width,
        final(loc).height == old(loc).height,
        final(loc).depth == old(loc).depth,
        final(loc).location_type == old(loc).location_type,
        final(loc).levels@ == old(loc).levels@.update(1, final(loc).levels@[1]),
        exists|cave0: Level, best: Seq<(i32, i32)>, sorted: Seq<(i32, i32)>| #[trigger] cave_plan_ok(old(loc).levels@[0], true,
            old(loc).width as int, cave_steps(crate::editor::rows_of(seeded@), old(loc).width as int, CAVE_SMOOTH_PASSES as nat),
            cave0, best, sorted, final(loc).levels@[1], plan.entrances@, plan.chests@),
{
    cave_sublevel_with(loc, seeded, true)
}

/// The sum of the first `k` weights.
pub open spec fn wsum(weights: Seq<u32>, k: int) -> int
    decreases k,
{
    if k <= 0 { 0 } else { wsum(weights, k - 1) + weights[k - 1] }
}

/// What a roll of `roll` picks: the first option (of those with a weight) whose running weight
/// passes the roll, or the last option when none does.
pub open spec fn picked<T>(options: Seq<T>, weights: Seq<u32>, roll: int, r: T) -> bool {
    let n = if options.len() < weights.len() { options.len() as int } else { weights.len() as int };
    if roll < wsum(weights, n) {
        exists|i: int| 0 <= i < n && wsum(weights, i) <= roll < wsum(weights, i + 1) && r == options[i]
    } else {
        r == options.last()
    }
}

proof fn lemma_wsum_mono(weights: Seq<u32>, i: int, j: int)
    requires
        0 <= i <= j,
    ensures
        wsum(weights, i) <= wsum(weights, j),
    decreases j - i,
{
    if i < j {
        lemma_wsum_mono(weights, i, j - 1);
    }
}

/// A weighted random pick: a roll uniform below the total weight picks the option it lands on.
pub fn pick_weighted<T: Copy>(options: &[T], weights: &[u32], rng: &mut SmallRng) -> (r: T)
    requires
        options@.len() > 0,
        wsum(weights@, weights@.len() as int) > 0,
        wsum(weights@, weights@.len() as int) <= u32::MAX,
    ensures
        exists|roll: int| 0 <= roll < wsum(weights@, weights@.len() as int) && #[trigger] picked(options@, weights@, roll, r),
{
    let mut total: u32 = 0;
    let mut k: usize = 0;
    while k < weights.len()
        invariant
            k <= weights@.len(),
            total == wsum(weights@, k as int),
            wsum(weights@, weights@.len() as int) <= u32::MAX,
        decreases weights@.len() - k,
    {
        proof {
            lemma_wsum_mono(weights@, k as int + 1, weights@.len() as int);
        }
        total = total + weights[k];
        k = k + 1;
    }
    let roll = small_range_usize(rng, 0, total as usize) as u32;
    picked_at(options, weights, roll)
}

/// The option a roll of `roll` picks.
pub fn picked_at<T: Copy>(options: &[T], weights: &[u32], roll: u32) -> (r: T)
    requires
        options@.len() > 0,
        roll < wsum(weights@, weights@.len() as int),
        wsum(weights@, weights@.len() as int) <= u32::MAX,
    ensures
        picked(options@, weights@, roll as int, r),
{
    let ghost total = wsum(weights@, weights@.len() as int);
    let n = if options.len() < weights.len() { options.len() } else { weights.len() };
    let mut acc: u64 = 0;
    let mut i: usize = 0;
    while i < n
        invariant
            n == (if options@.len() < weights@.len() { options@.len() } else { weights@.len() }),
            i <= n,
            acc == wsum(weights@, i as int),
            acc <= roll,
            roll < total,
            total == wsum(weights@, weights@.len() as int),
            total <= u32::MAX,
        decreases n - i,
    {
        acc = acc + weights[i] as u64;
        if (roll as u64) < acc {
            proof {
                assert(picked(options@, weights@, roll as int, options@[i as int])) by {
                    lemma_wsum_mono(weights@, i as int + 1, n as int);
                }
            }
            return options[i];
        }
        i = i + 1;
    }
    let r = options[options.len() - 1];
    assert(picked(options@, weights@, roll as int, r));
    r
}

} // verus!
