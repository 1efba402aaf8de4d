//! Planet Grass: a planet surface tiled from 5 by 5 patterns cut out of an editor save, stored
//! palette-encoded.
use vstd::prelude::*;
use rand::rngs::SmallRng;
use crate::locations::planet_gen::{le16, grid_magic, indices_start, has_magic, grid_read, grid_readable, EditorPlanetGrid};
use crate::rng::{small_choose, small_rng_from_seed};

verus! {

/// Side of the generated planet, in cells.
pub const GRASS_PLANET_SIZE: usize = 300;
/// Side of a pattern, in cells.
pub const PATTERN_SIZE: usize = 5;
/// The editor's grass tile, which fills cells a save leaves out.
pub const EDITOR_GRASS_TILE: u16 = 22;

/// An editor cell: the tile in the low byte and, when there is an object, its index plus one in
/// the high byte.
pub fn encode_editor_cell(tile: u16, object: i16) -> (c: u16)
    ensures
        object >= 0 ==> c == tile | (((object + 1) as u16) << 8u16),
        object < 0 ==> c == tile,
        0 <= object < 255 && tile < 256 ==> c == tile + 256 * (object + 1),
{
    if object >= 0 {
        let o: u16 = object as u16 + 1;
        let c = tile | (o << 8u16);
        proof {
            if object < 255 && tile < 256 {
                assert(tile < 256 && 1 <= o < 256 ==> tile | (o << 8u16) == tile + 256 * o) by (bit_vector);
            }
        }
        c
    } else {
        tile
    }
}

/// The source cell `(sx, sy)` that position `(x, y)` of a pattern takes under orientation `o`
/// (the eight rotations and reflections of the square).
pub open spec fn oriented(x: int, y: int, o: int) -> (int, int) {
    let m: int = 4;
    if o == 0 { (x, y) }
    else if o == 1 { (y, m - x) }
    else if o == 2 { (m - x, m - y) }
    else if o == 3 { (m - y, x) }
    else if o == 4 { (m - x, y) }
    else if o == 5 { (y, x) }
    else if o == 6 { (x, m - y) }
    else { (m - y, m - x) }
}

/// Index in a 5 by 5 pattern of the cell that `(x, y)` takes under orientation `o`.
pub fn oriented_index(x: usize, y: usize, orientation: usize) -> (i: usize)
    requires
        x < PATTERN_SIZE,
        y < PATTERN_SIZE,
    ensures
        i == oriented(x as int, y as int, orientation as int).1 * 5 + oriented(x as int, y as int, orientation as int).0,
        i < 25,
{
    let max = PATTERN_SIZE - 1;
    let (sx, sy) = match orientation {
        0 => (x, y),
        1 => (y, max - x),
        2 => (max - x, max - y),
        3 => (max - y, x),
        4 => (max - x, y),
        5 => (y, x),
        6 => (x, max - y),
        _ => (max - y, max - x),
    };
    sy * PATTERN_SIZE + sx
}

/// The pattern cut at `(x, y)` of a `width`-wide grid, under orientation `o`: cell `i` of it is
/// the source cell that position `(i % 5, i / 5)` takes.
pub open spec fn pattern_at(cells: Seq<u16>, width: int, x: int, y: int, o: int) -> Seq<u16> {
    Seq::new(25, |i: int| {
        let s = oriented(i % 5, i / 5, o);
        cells[(y + s.1) * width + x + s.0]
    })
}

/// Number of pattern origins along a side of length `n`.
pub open spec fn origins(n: int) -> int {
    if n >= 5 { n - 4 } else { 1 }
}

/// Index of the pattern at origin `(x, y)` and orientation `o`, origins taken row by row.
pub open spec fn pattern_slot(nx: int, x: int, y: int, o: int) -> int {
    (y * nx + x) * 8 + o
}

proof fn lemma_row_cell(width: int, height: int, x: int, y: int, dx: int, dy: int)
    requires
        5 <= width,
        5 <= height,
        0 <= x <= width - 5,
        0 <= y <= height - 5,
        0 <= dx < 5,
        0 <= dy < 5,
    ensures
        0 <= (y + dy) * width + x + dx < width * height,
{
    assert(0 <= (y + dy) * width <= (height - 1) * width) by (nonlinear_arith)
        requires
            0 <= y + dy <= height - 1,
            0 <= width,
    ;
    assert((height - 1) * width + width == width * height) by (nonlinear_arith);
}

/// Every 5 by 5 window of the editor grid, in all eight orientations, window by window.
pub fn editor_patterns(width: usize, height: usize, cells: &[u16]) -> (patterns: Vec<Vec<u16>>)
    requires
        5 <= width,
        5 <= height,
        cells@.len() == width * height,
        width * height <= usize::MAX,
    ensures
        patterns@.len() == origins(height as int) * origins(width as int) * 8,
        forall|x: int, y: int, o: int| 0 <= x < origins(width as int) && 0 <= y < origins(height as int) && 0 <= o < 8
            ==> (#[trigger] patterns@[pattern_slot(origins(width as int), x, y, o)])@ == pattern_at(cells@, width as int, x, y, o),
{
    let nx = width - 4;
    let ny = height - 4;
    let ghost w = width as int;
    let ghost h = height as int;
    let mut patterns: Vec<Vec<u16>> = Vec::new();
    let mut y: usize = 0;
    while y < ny
        invariant
            5 <= width,
            5 <= height,
            cells@.len() == width * height,
            width * height <= usize::MAX,
            nx == width - 4,
            ny == height - 4,
            w == width,
            h == height,
            y <= ny,
            patterns@.len() == y * nx * 8,
            forall|px: int, py: int, o: int| 0 <= px < nx && 0 <= py < y && 0 <= o < 8
                ==> (#[trigger] patterns@[pattern_slot(nx as int, px, py, o)])@ == pattern_at(cells@, w, px, py, o),
        decreases ny - y,
    {
        let mut x: usize = 0;
        while x < nx
            invariant
                5 <= width,
                5 <= height,
                cells@.len() == width * height,
                width * height <= usize::MAX,
                nx == width - 4,
                ny == height - 4,
                w == width,
                h == height,
                y < ny,
                x <= nx,
                patterns@.len() == (y * nx + x) * 8,
                forall|px: int, py: int, o: int| 0 <= px < nx && 0 <= py < ny && 0 <= o < 8
                    && (py < y || (py == y && px < x))
                    ==> (#[trigger] patterns@[pattern_slot(nx as int, px, py, o)])@ == pattern_at(cells@, w, px, py, o),
            decreases nx - x,
        {
            let mut source: Vec<u16> = Vec::new();
            let mut dy: usize = 0;
            while dy < PATTERN_SIZE
                invariant
                    5 <= width,
                    5 <= height,
                    cells@.len() == width * height,
                    width * height <= usize::MAX,
                    x < nx && y < ny,
                    nx == width - 4,
                    ny == height - 4,
                    dy <= 5,
                    source@.len() == dy * 5,
                    forall|j: int| 0 <= j < source@.len() ==> #[trigger] source@[j] == cells@[(y + j / 5) * width + x + j % 5],
                decreases 5 - dy,
            {
                let mut dx: usize = 0;
                while dx < PATTERN_SIZE
                    invariant
                        5 <= width,
                        5 <= height,
                        cells@.len() == width * height,
                        width * height <= usize::MAX,
                        x < nx && y < ny,
                        nx == width - 4,
                        ny == height - 4,
                        dy < 5,
                        dx <= 5,
                        source@.len() == dy * 5 + dx,
                        forall|j: int| 0 <= j < source@.len() ==> #[trigger] source@[j] == cells@[(y + j / 5) * width + x + j % 5],
                    decreases 5 - dx,
                {
                    proof { lemma_row_cell(width as int, height as int, x as int, y as int, dx as int, dy as int); }
                    source.push(cells[(y + dy) * width + x + dx]);
                    proof {
                        let j = dy * 5 + dx;
                        assert(j / 5 == dy && j % 5 == dx);
                    }
                    dx = dx + 1;
                }
                dy = dy + 1;
            }
            let mut o: usize = 0;
            while o < 8
                invariant
                    5 <= width,
                    5 <= height,
                    cells@.len() == width * height,
                    width * height <= usize::MAX,
                    nx == width - 4,
                    ny == height - 4,
                    w == width,
                    y < ny,
                    x < nx,
                    o <= 8,
                    source@.len() == 25,
                    forall|j: int| 0 <= j < 25 ==> #[trigger] source@[j] == cells@[(y + j / 5) * width + x + j % 5],
                    patterns@.len() == (y * nx + x) * 8 + o,
                    forall|px: int, py: int, q: int| 0 <= px < nx && 0 <= py < ny && 0 <= q < 8
                        && (py < y || (py == y && px < x) || (py == y && px == x && q < o))
                        ==> (#[trigger] patterns@[pattern_slot(nx as int, px, py, q)])@ == pattern_at(cells@, w, px, py, q),
                decreases 8 - o,
            {
                let mut pat: Vec<u16> = Vec::new();
                let mut i: usize = 0;
                while i < 25
                    invariant
                        w == width,
                        source@.len() == 25,
                        i <= 25,
                        pat@.len() == i,
                        forall|j: int| 0 <= j < 25 ==> #[trigger] source@[j] == cells@[(y + j / 5) * width + x + j % 5],
                        forall|k: int| 0 <= k < i ==> #[trigger] pat@[k] == pattern_at(cells@, w, x as int, y as int, o as int)[k],
                    decreases 25 - i,
                {
                    let si = oriented_index(i % PATTERN_SIZE, i / PATTERN_SIZE, o);
                    pat.push(source[si]);
                    proof {
                        let s = oriented(i as int % 5, i as int / 5, o as int);
                        assert(si as int / 5 == s.1 && si as int % 5 == s.0);
                    }
                    i = i + 1;
                }
                let ghost before = patterns@;
                patterns.push(pat);
                proof {
                    assert(pattern_slot(nx as int, x as int, y as int, o as int) == before.len());
                    assert(patterns@[before.len() as int]@ =~= pattern_at(cells@, w, x as int, y as int, o as int));
                    assert forall|px: int, py: int, q: int| 0 <= px < nx && 0 <= py < ny && 0 <= q < 8
                        && (py < y || (py == y && px < x) || (py == y && px == x && q <= o))
                        implies (#[trigger] patterns@[pattern_slot(nx as int, px, py, q)])@ == pattern_at(cells@, w, px, py, q) by {
                        if !(py == y && px == x && q == o) {
                            lemma_slot_before(nx as int, px, py, q, x as int, y as int, o as int);
                            assert(patterns@[pattern_slot(nx as int, px, py, q)] == before[pattern_slot(nx as int, px, py, q)]);
                        }
                    }
                }
                o = o + 1;
            }
            x = x + 1;
        }
        proof {
            assert((y * nx + nx) * 8 == (y + 1) * nx * 8) by (nonlinear_arith);
        }
        y = y + 1;
    }
    patterns
}

/// Earlier windows and orientations come earlier among the patterns.
proof fn lemma_slot_before(nx: int, px: int, py: int, q: int, x: int, y: int, o: int)
    requires
        0 <= px < nx,
        0 <= x < nx,
        0 <= q < 8,
        0 <= o < 8,
        0 <= py,
        py < y || (py == y && px < x) || (py == y && px == x && q < o),
    ensures
        0 <= pattern_slot(nx, px, py, q) < pattern_slot(nx, x, y, o),
{
    assert(0 <= py * nx) by (nonlinear_arith)
        requires
            0 <= py,
            0 <= nx,
    ;
    if py < y {
        assert(py * nx + px < y * nx) by (nonlinear_arith)
            requires
                py < y,
                0 <= px < nx,
        ;
    }
}

/// Index of `(x, y)` in the row-major planet grid.
pub open spec fn planet_idx(x: int, y: int) -> int {
    y * 300 + x
}

/// `pattern` continues the block at `(block_x, block_y)` seamlessly: its top row repeats the
/// row above the block and its left column the column to its left (where those exist).
pub open spec fn fits_spec(output: Seq<u16>, block_x: int, block_y: int, pattern: Seq<u16>) -> bool {
    &&& (block_y == 0 || forall|dx: int| 0 <= dx < 5 ==> #[trigger] output[planet_idx(block_x * 5 + dx, block_y * 5 - 1)] == pattern[dx])
    &&& (block_x == 0 || forall|dy: int| 0 <= dy < 5 ==> #[trigger] output[planet_idx(block_x * 5 - 1, block_y * 5 + dy)] == pattern[dy * 5])
}

/// Whether `pattern` can go at block `(block_x, block_y)` of the planet built so far.
pub fn fits(output: &[u16], block_x: usize, block_y: usize, pattern: &[u16]) -> (b: bool)
    requires
        output@.len() == 90000,
        block_x < 60,
        block_y < 60,
        pattern@.len() == 25,
    ensures
        b == fits_spec(output@, block_x as int, block_y as int, pattern@),
{
    let start_x = block_x * PATTERN_SIZE;
    let start_y = block_y * PATTERN_SIZE;
    let mut top_ok = true;
    if block_y != 0 {
        let mut dx: usize = 0;
        while dx < PATTERN_SIZE
            invariant
                output@.len() == 90000,
                pattern@.len() == 25,
                block_x < 60,
                1 <= block_y < 60,
                start_x == block_x * 5,
                start_y == block_y * 5,
                dx <= 5,
                top_ok == forall|e: int| 0 <= e < dx ==> #[trigger] output@[planet_idx(block_x * 5 + e, block_y * 5 - 1)] == pattern@[e],
            decreases 5 - dx,
        {
            let j = (start_y - 1) * GRASS_PLANET_SIZE + start_x + dx;
            assert(j == planet_idx(block_x * 5 + dx, block_y * 5 - 1));
            let same = output[j] == pattern[dx];
            assert(same == (output@[planet_idx(block_x * 5 + dx, block_y * 5 - 1)] == pattern@[dx as int]));
            if !same {
                top_ok = false;
            }
            dx = dx + 1;
        }
    }
    let mut left_ok = true;
    if block_x != 0 {
        let mut dy: usize = 0;
        while dy < PATTERN_SIZE
            invariant
                output@.len() == 90000,
                pattern@.len() == 25,
                1 <= block_x < 60,
                block_y < 60,
                start_x == block_x * 5,
                start_y == block_y * 5,
                dy <= 5,
                left_ok == forall|e: int| 0 <= e < dy ==> #[trigger] output@[planet_idx(block_x * 5 - 1, block_y * 5 + e)] == pattern@[e * 5],
            decreases 5 - dy,
        {
            let j = (start_y + dy) * GRASS_PLANET_SIZE + start_x - 1;
            assert(j == planet_idx(block_x * 5 - 1, block_y * 5 + dy));
            let same = output[j] == pattern[dy * PATTERN_SIZE];
            assert(same == (output@[planet_idx(block_x * 5 - 1, block_y * 5 + dy)] == pattern@[dy * 5]));
            if !same {
                left_ok = false;
            }
            dy = dy + 1;
        }
    }
    top_ok && left_ok
}

/// The cells of each pattern.
pub open spec fn pattern_views(patterns: Seq<Vec<u16>>) -> Seq<Seq<u16>> {
    patterns.map_values(|p: Vec<u16>| p@)
}

/// Some pattern fits the block at `(bx, by)`.
pub open spec fn some_fit(output: Seq<u16>, patterns: Seq<Seq<u16>>, bx: int, by: int) -> bool {
    exists|k: int| 0 <= k < patterns.len() && #[trigger] fits_spec(output, bx, by, patterns[k])
}

/// The block at `(bx, by)` is a copy of one of the patterns, and of one that fits its neighbours
/// above and to the left whenever some pattern does.
pub open spec fn block_copied(output: Seq<u16>, patterns: Seq<Seq<u16>>, bx: int, by: int) -> bool {
    exists|k: int| #![trigger patterns[k]] 0 <= k < patterns.len()
        && (some_fit(output, patterns, bx, by) ==> fits_spec(output, bx, by, patterns[k]))
        && forall|dx: int, dy: int| 0 <= dx < 5 && 0 <= dy < 5
        ==> #[trigger] output[planet_idx(bx * 5 + dx, by * 5 + dy)] == patterns[k][dy * 5 + dx]
}

/// Writing inside the block at `(bx, by)` changes no cell that the fit of the block at `(x, b)`
/// reads, when `(x, b)` comes no later than `(bx, by)` in reading order.
proof fn lemma_fit_frame(before: Seq<u16>, after: Seq<u16>, pats: Seq<Seq<u16>>, x: int, b: int, bx: int, by: int)
    requires
        before.len() == 90000,
        after.len() == 90000,
        0 <= x < 60 && 0 <= b < 60 && 0 <= bx < 60 && 0 <= by < 60,
        b < by || (b == by && x <= bx),
        forall|j: int| 0 <= j < 90000 && !(exists|ex: int, ey: int| 0 <= ex < 5 && 0 <= ey < 5 && j == #[trigger] planet_idx(bx * 5 + ex, by * 5 + ey))
            ==> after[j] == before[j],
    ensures
        forall|p: Seq<u16>| #[trigger] fits_spec(after, x, b, p) == fits_spec(before, x, b, p),
        some_fit(after, pats, x, b) == some_fit(before, pats, x, b),
{
    assert forall|dx: int| 0 <= dx < 5 && b > 0 implies #[trigger] after[planet_idx(x * 5 + dx, b * 5 - 1)] == before[planet_idx(x * 5 + dx, b * 5 - 1)] by {
        let j = planet_idx(x * 5 + dx, b * 5 - 1);
        assert forall|ex: int, ey: int| 0 <= ex < 5 && 0 <= ey < 5 implies j != #[trigger] planet_idx(bx * 5 + ex, by * 5 + ey) by {}
    }
    assert forall|dy: int| 0 <= dy < 5 && x > 0 implies #[trigger] after[planet_idx(x * 5 - 1, b * 5 + dy)] == before[planet_idx(x * 5 - 1, b * 5 + dy)] by {
        let j = planet_idx(x * 5 - 1, b * 5 + dy);
        assert forall|ex: int, ey: int| 0 <= ex < 5 && 0 <= ey < 5 implies j != #[trigger] planet_idx(bx * 5 + ex, by * 5 + ey) by {}
    }
    assert forall|p: Seq<u16>| #[trigger] fits_spec(after, x, b, p) == fits_spec(before, x, b, p) by {
        if b > 0 {
            assert forall|dx: int| 0 <= dx < 5 implies #[trigger] after[planet_idx(x * 5 + dx, b * 5 - 1)] == before[planet_idx(x * 5 + dx, b * 5 - 1)] by {}
        }
        if x > 0 {
            assert forall|dy: int| 0 <= dy < 5 implies #[trigger] after[planet_idx(x * 5 - 1, b * 5 + dy)] == before[planet_idx(x * 5 - 1, b * 5 + dy)] by {}
        }
    }
    if some_fit(after, pats, x, b) {
        let k = choose|k: int| 0 <= k < pats.len() && #[trigger] fits_spec(after, x, b, pats[k]);
        assert(fits_spec(before, x, b, pats[k]));
    }
    if some_fit(before, pats, x, b) {
        let k = choose|k: int| 0 <= k < pats.len() && #[trigger] fits_spec(before, x, b, pats[k]);
        assert(fits_spec(after, x, b, pats[k]));
    }
}

/// Tiles the 300 by 300 planet with patterns, block by block in reading order: each block a
/// random pattern among those that fit its neighbours above and to the left, or any pattern
/// when none fits.
pub fn generate_planet(patterns: &Vec<Vec<u16>>) -> (output: Vec<u16>)
    requires
        patterns@.len() > 0,
        forall|k: int| 0 <= k < patterns@.len() ==> (#[trigger] patterns@[k])@.len() == 25,
    ensures
        output@.len() == 90000,
        forall|bx: int, by: int| 0 <= bx < 60 && 0 <= by < 60 ==> #[trigger] block_copied(output@, pattern_views(patterns@), bx, by),
{
    let ghost pats = pattern_views(patterns@);
    let mut rng = small_rng_from_seed(0xDEAD_BEEF);
    let mut output: Vec<u16> = Vec::new();
    let mut i: usize = 0;
    while i < 90000
        invariant
            i <= 90000,
            output@.len() == i,
        decreases 90000 - i,
    {
        output.push(EDITOR_GRASS_TILE);
        i = i + 1;
    }
    let mut all: Vec<usize> = Vec::new();
    let mut k: usize = 0;
    while k < patterns.len()
        invariant
            k <= patterns@.len(),
            all@.len() == k,
            forall|j: int| 0 <= j < k ==> all@[j] == j,
        decreases patterns@.len() - k,
    {
        all.push(k);
        k = k + 1;
    }
    let mut by: usize = 0;
    while by < 60
        invariant
            output@.len() == 90000,
            patterns@.len() > 0,
            forall|k: int| 0 <= k < patterns@.len() ==> (#[trigger] patterns@[k])@.len() == 25,
            pats == pattern_views(patterns@),
            all@.len() == patterns@.len(),
            forall|j: int| 0 <= j < all@.len() ==> all@[j] == j,
            by <= 60,
            forall|bx: int, b: int| 0 <= bx < 60 && 0 <= b < by ==> #[trigger] block_copied(output@, pats, bx, b),
        decreases 60 - by,
    {
        let mut bx: usize = 0;
        while bx < 60
            invariant
                output@.len() == 90000,
                patterns@.len() > 0,
                forall|k: int| 0 <= k < patterns@.len() ==> (#[trigger] patterns@[k])@.len() == 25,
                pats == pattern_views(patterns@),
                all@.len() == patterns@.len(),
                forall|j: int| 0 <= j < all@.len() ==> all@[j] == j,
                by < 60,
                bx <= 60,
                forall|x: int, b: int| 0 <= x < 60 && 0 <= b < 60 && (b < by || (b == by && x < bx)) ==> #[trigger] block_copied(output@, pats, x, b),
            decreases 60 - bx,
        {
            let mut candidates: Vec<usize> = Vec::new();
            let mut k: usize = 0;
            while k < patterns.len()
                invariant
                    output@.len() == 90000,
                    forall|k: int| 0 <= k < patterns@.len() ==> (#[trigger] patterns@[k])@.len() == 25,
                    bx < 60 && by < 60,
                    k <= patterns@.len(),
                    forall|j: int| 0 <= j < candidates@.len() ==> #[trigger] candidates@[j] < patterns@.len()
                        && fits_spec(output@, bx as int, by as int, pats[candidates@[j] as int]),
                    forall|q: int| 0 <= q < k && #[trigger] fits_spec(output@, bx as int, by as int, pats[q]) ==> candidates@.contains(q as usize),
                    pats == pattern_views(patterns@),
                    patterns@.len() == pats.len(),
                decreases patterns@.len() - k,
            {
                let ghost c0 = candidates@;
                if fits(output.as_slice(), bx, by, patterns[k].as_slice()) {
                    candidates.push(k);
                }
                proof {
                    assert(pats[k as int] == patterns@[k as int]@);
                    assert forall|q: int| 0 <= q < k + 1 && #[trigger] fits_spec(output@, bx as int, by as int, pats[q]) implies candidates@.contains(q as usize) by {
                        if q < k {
                            let j = choose|j: int| 0 <= j < c0.len() && c0[j] == q as usize;
                            assert(candidates@[j] == q as usize);
                        } else {
                            assert(candidates@[candidates@.len() - 1] == q as usize);
                        }
                    }
                }
                k = k + 1;
            }
            let ghost fit_some = some_fit(output@, pats, bx as int, by as int);
            let pick = match small_choose(&mut rng, candidates.as_slice()) {
                Some(p) => p,
                None => match small_choose(&mut rng, all.as_slice()) {
                    Some(p) => p,
                    None => 0,
                },
            };
            assert(pick < patterns@.len()) by {
                if candidates@.contains(pick) {
                    let j = choose|j: int| 0 <= j < candidates@.len() && candidates@[j] == pick;
                } else if all@.contains(pick) {
                    let j = choose|j: int| 0 <= j < all@.len() && all@[j] == pick;
                }
            }
            proof {
                if fit_some {
                    let q = choose|q: int| 0 <= q < pats.len() && #[trigger] fits_spec(output@, bx as int, by as int, pats[q]);
                    assert(candidates@.contains(q as usize));
                    assert(candidates@.len() > 0);
                    let j = choose|j: int| 0 <= j < candidates@.len() && candidates@[j] == pick;
                    assert(fits_spec(output@, bx as int, by as int, pats[pick as int]));
                }
            }
            let pattern = &patterns[pick];
            assert(pattern@.len() == 25);
            let start_x = bx * PATTERN_SIZE;
            let start_y = by * PATTERN_SIZE;
            let ghost before = output@;
            let mut dy: usize = 0;
            while dy < PATTERN_SIZE
                invariant
                    output@.len() == 90000,
                    pattern@.len() == 25,
                    bx < 60 && by < 60,
                    start_x == bx * 5,
                    start_y == by * 5,
                    dy <= 5,
                    forall|ex: int, ey: int| 0 <= ex < 5 && 0 <= ey < dy ==> #[trigger] output@[planet_idx(bx * 5 + ex, by * 5 + ey)] == pattern@[ey * 5 + ex],
                    forall|j: int| 0 <= j < 90000 && !(exists|ex: int, ey: int| 0 <= ex < 5 && 0 <= ey < dy && j == #[trigger] planet_idx(bx * 5 + ex, by * 5 + ey))
                        ==> output@[j] == before[j],
                decreases 5 - dy,
            {
                let mut dx: usize = 0;
                while dx < PATTERN_SIZE
                    invariant
                        output@.len() == 90000,
                        pattern@.len() == 25,
                        bx < 60 && by < 60,
                        start_x == bx * 5,
                        start_y == by * 5,
                        dy < 5,
                        dx <= 5,
                        forall|ex: int, ey: int| 0 <= ex < 5 && 0 <= ey < 5 && (ey < dy || (ey == dy && ex < dx))
                            ==> #[trigger] output@[planet_idx(bx * 5 + ex, by * 5 + ey)] == pattern@[ey * 5 + ex],
                        forall|j: int| 0 <= j < 90000 && !(exists|ex: int, ey: int| 0 <= ex < 5 && 0 <= ey < 5 && (ey < dy || (ey == dy && ex < dx))
                            && j == #[trigger] planet_idx(bx * 5 + ex, by * 5 + ey)) ==> output@[j] == before[j],
                    decreases 5 - dx,
                {
                    let j = (start_y + dy) * GRASS_PLANET_SIZE + start_x + dx;
                    let v = pattern[dy * PATTERN_SIZE + dx];
                    let ghost prev = output@;
                    output.set(j, v);
                    proof {
                        assert(j == planet_idx(bx * 5 + dx, by * 5 + dy));
                        assert forall|ex: int, ey: int| 0 <= ex < 5 && 0 <= ey < 5 && (ey < dy || (ey == dy && ex <= dx))
                            implies #[trigger] output@[planet_idx(bx * 5 + ex, by * 5 + ey)] == pattern@[ey * 5 + ex] by {
                            if !(ex == dx && ey == dy) {
                                assert(planet_idx(bx * 5 + ex, by * 5 + ey) != j);
                            }
                        }
                        assert forall|q: int| 0 <= q < 90000 && !(exists|ex: int, ey: int| 0 <= ex < 5 && 0 <= ey < 5 && (ey < dy || (ey == dy && ex <= dx))
                            && q == #[trigger] planet_idx(bx * 5 + ex, by * 5 + ey)) implies output@[q] == before[q] by {
                            assert(q != j) by {
                                if q == j {
                                    assert(q == planet_idx(bx * 5 + dx, by * 5 + dy));
                                }
                            }
                            assert(output@[q] == prev[q]);
                        }
                    }
                    dx = dx + 1;
                }
                dy = dy + 1;
            }
            proof {
                assert(pats[pick as int] == pattern@);
                lemma_fit_frame(before, output@, pats, bx as int, by as int, bx as int, by as int);
                assert(fit_some ==> fits_spec(output@, bx as int, by as int, pats[pick as int]));
                assert(block_copied(output@, pats, bx as int, by as int));
                assert forall|x: int, b: int| 0 <= x < 60 && 0 <= b < 60 && (b < by || (b == by && x <= bx))
                    implies #[trigger] block_copied(output@, pats, x, b) by {
                    if !(x == bx && b == by) {
                        assert(block_copied(before, pats, x, b));
                        lemma_fit_frame(before, output@, pats, x, b, bx as int, by as int);
                        let kk = choose|kk: int| #![trigger pats[kk]] 0 <= kk < pats.len()
                            && (some_fit(before, pats, x, b) ==> fits_spec(before, x, b, pats[kk]))
                            && forall|dx: int, dy: int| 0 <= dx < 5 && 0 <= dy < 5
                            ==> #[trigger] before[planet_idx(x * 5 + dx, b * 5 + dy)] == pats[kk][dy * 5 + dx];
                        assert forall|dx: int, dy: int| 0 <= dx < 5 && 0 <= dy < 5
                            implies #[trigger] output@[planet_idx(x * 5 + dx, b * 5 + dy)] == pats[kk][dy * 5 + dx] by {
                            lemma_blocks_apart(x, b, dx, dy, bx as int, by as int);
                            assert(before[planet_idx(x * 5 + dx, b * 5 + dy)] == pats[kk][dy * 5 + dx]);
                        }
                    }
                }
            }
            bx = bx + 1;
        }
        by = by + 1;
    }
    output
}

/// Cells of different blocks are different cells of the planet.
proof fn lemma_blocks_apart(x: int, b: int, dx: int, dy: int, bx: int, by: int)
    requires
        0 <= x < 60 && 0 <= b < 60 && 0 <= bx < 60 && 0 <= by < 60,
        0 <= dx < 5 && 0 <= dy < 5,
        !(x == bx && b == by),
    ensures
        forall|ex: int, ey: int| 0 <= ex < 5 && 0 <= ey < 5 ==> planet_idx(x * 5 + dx, b * 5 + dy) != #[trigger] planet_idx(bx * 5 + ex, by * 5 + ey),
{
}

/// The distinct values of `s` in the order they first appear.
pub open spec fn first_occurrences(s: Seq<u16>) -> Seq<u16>
    decreases s.len(),
{
    if s.len() == 0 {
        Seq::empty()
    } else {
        let p = first_occurrences(s.drop_last());
        if p.contains(s.last()) { p } else { p.push(s.last()) }
    }
}

pub open spec fn lo_byte(v: u16) -> u8 {
    (v % 256) as u8
}

pub open spec fn hi_byte(v: u16) -> u8 {
    (v / 256) as u8
}

/// The palette entries, two little-endian bytes each.
pub open spec fn palette_bytes(p: Seq<u16>) -> Seq<u8> {
    Seq::new(2 * p.len(), |k: int| if k % 2 == 0 { lo_byte(p[k / 2]) } else { hi_byte(p[k / 2]) })
}

/// Position of `v` in `p`.
pub open spec fn palette_pos(p: Seq<u16>, v: u16) -> int {
    choose|i: int| 0 <= i < p.len() && p[i] == v
}

/// The palette encoding of `cells`: the magic, the palette length, the palette of distinct cells
/// in order of first appearance, then one palette index per cell.
pub open spec fn palette_encoding(cells: Seq<u16>) -> Seq<u8> {
    let p = first_occurrences(cells);
    grid_magic() + seq![lo_byte(p.len() as u16), hi_byte(p.len() as u16)] + palette_bytes(p)
        + Seq::new(cells.len(), |i: int| palette_pos(p, cells[i]) as u8)
}

proof fn lemma_first_occurrences(s: Seq<u16>)
    ensures
        forall|i: int, j: int| 0 <= i < j < first_occurrences(s).len() ==> first_occurrences(s)[i] != first_occurrences(s)[j],
        forall|i: int| 0 <= i < s.len() ==> first_occurrences(s).contains(#[trigger] s[i]),
        forall|i: int| 0 <= i < first_occurrences(s).len() ==> s.contains(#[trigger] first_occurrences(s)[i]),
    decreases s.len(),
{
    if s.len() > 0 {
        let t = s.drop_last();
        lemma_first_occurrences(t);
        let p = first_occurrences(t);
        assert forall|i: int| 0 <= i < s.len() implies first_occurrences(s).contains(#[trigger] s[i]) by {
            if i < t.len() {
                assert(t[i] == s[i]);
                assert(p.contains(s[i]));
                if !p.contains(s.last()) {
                    let k = choose|k: int| 0 <= k < p.len() && p[k] == s[i];
                    assert(p.push(s.last())[k] == s[i]);
                }
            } else {
                if !p.contains(s.last()) {
                    assert(p.push(s.last())[p.len() as int] == s.last());
                }
            }
        }
        assert forall|i: int| 0 <= i < first_occurrences(s).len() implies s.contains(#[trigger] first_occurrences(s)[i]) by {
            if i < p.len() {
                assert(first_occurrences(s)[i] == p[i]);
                assert(t.contains(p[i]));
                let k = choose|k: int| 0 <= k < t.len() && t[k] == p[i];
                assert(s[k] == p[i]);
            } else {
                assert(s[s.len() - 1] == s.last());
            }
        }
    }
}

proof fn lemma_first_occurrences_grow(s: Seq<u16>, k: int)
    requires
        0 <= k <= s.len(),
    ensures
        first_occurrences(s.take(k)).len() <= first_occurrences(s).len(),
    decreases s.len() - k,
{
    if k < s.len() {
        lemma_first_occurrences_grow(s, k + 1);
        assert(s.take(k + 1).drop_last() == s.take(k));
    } else {
        assert(s.take(k) == s);
    }
}

/// Encodes the cells with a palette of at most 256 distinct cells: the magic, the palette
/// length, the palette, then a one-byte palette index per cell.
pub fn palette_encode(cells: &[u16]) -> (bytes: Vec<u8>)
    requires
        first_occurrences(cells@).len() <= 256,
        cells@.len() + 520 <= usize::MAX,
    ensures
        bytes@ == palette_encoding(cells@),
{
    let mut palette: Vec<u16> = Vec::new();
    let mut indices: Vec<u8> = Vec::new();
    let mut i: usize = 0;
    while i < cells.len()
        invariant
            i <= cells@.len(),
            first_occurrences(cells@).len() <= 256,
            palette@ == first_occurrences(cells@.take(i as int)),
            indices@.len() == i,
            forall|k: int| 0 <= k < i ==> #[trigger] indices@[k] as int == palette_pos(palette@, cells@[k])
                && palette@[indices@[k] as int] == cells@[k] && (indices@[k] as int) < palette@.len(),
        decreases cells@.len() - i,
    {
        let cell = cells[i];
        proof {
            lemma_first_occurrences(cells@.take(i as int));
            lemma_first_occurrences_grow(cells@, i as int + 1);
            assert(cells@.take(i + 1).drop_last() == cells@.take(i as int));
            assert(cells@.take(i + 1).last() == cell);
        }
        let mut pos: usize = 0;
        while pos < palette.len() && palette[pos] != cell
            invariant
                pos <= palette@.len(),
                forall|k: int| 0 <= k < pos ==> palette@[k] != cell,
            decreases palette@.len() - pos,
        {
            pos = pos + 1;
        }
        let found = pos < palette.len();
        let ghost old_pal = palette@;
        if !found {
            palette.push(cell);
        }
        proof {
            lemma_first_occurrences(cells@.take(i as int));
            assert forall|a: int, b: int| 0 <= a < b < palette@.len() implies palette@[a] != palette@[b] by {
                if b == old_pal.len() {
                    assert(palette@[b] == cell);
                    assert(old_pal[a] != cell);
                }
            }
            assert(palette@[pos as int] == cell);
            assert(palette_pos(palette@, cell) == pos as int) by {
                let c = palette_pos(palette@, cell);
                assert(0 <= c < palette@.len() && palette@[c] == cell);
            }
            assert forall|k: int| 0 <= k < i implies #[trigger] indices@[k] as int == palette_pos(palette@, cells@[k])
                && palette@[indices@[k] as int] == cells@[k] && (indices@[k] as int) < palette@.len() by {
                let idx = indices@[k] as int;
                assert(old_pal[idx] == cells@[k]);
                assert(palette@[idx] == old_pal[idx]);
                let c = palette_pos(palette@, cells@[k]);
                assert(0 <= c < palette@.len() && palette@[c] == cells@[k]);
                if c != idx {
                    if c < idx {
                        assert(palette@[c] != palette@[idx]);
                    } else {
                        assert(palette@[idx] != palette@[c]);
                    }
                }
            }
        }
        indices.push(pos as u8);
        i = i + 1;
    }
    assert(cells@.take(cells@.len() as int) == cells@);
    let n = palette.len() as u16;
    let mut bytes: Vec<u8> = Vec::new();
    bytes.push(0x50);
    bytes.push(0x47);
    bytes.push(0x52);
    bytes.push(0x31);
    bytes.push((n % 256) as u8);
    bytes.push((n / 256) as u8);
    let mut k: usize = 0;
    while k < palette.len()
        invariant
            k <= palette@.len(),
            palette@.len() <= 256,
            bytes@ == grid_magic() + seq![lo_byte(n), hi_byte(n)] + palette_bytes(palette@.take(k as int)),
        decreases palette@.len() - k,
    {
        let c = palette[k];
        let ghost before = bytes@;
        bytes.push((c % 256) as u8);
        bytes.push((c / 256) as u8);
        proof {
            assert(palette_bytes(palette@.take(k + 1)) =~= palette_bytes(palette@.take(k as int)) + seq![lo_byte(c), hi_byte(c)]);
        }
        k = k + 1;
    }
    assert(palette@.take(palette@.len() as int) == palette@);
    let mut j: usize = 0;
    let ghost head = bytes@;
    while j < indices.len()
        invariant
            j <= indices@.len(),
            bytes@ == head + indices@.take(j as int),
        decreases indices@.len() - j,
    {
        bytes.push(indices[j]);
        j = j + 1;
    }
    proof {
        assert(indices@.take(indices@.len() as int) == indices@);
        assert(indices@ =~= Seq::new(cells@.len(), |i: int| palette_pos(palette@, cells@[i]) as u8));
    }
    bytes
}

/// Decoding a palette encoding gives every cell back: the bytes open with the magic, the
/// indices start right after the palette, and each index picks its cell out of the palette.
pub proof fn law_palette_roundtrip(cells: Seq<u16>)
    requires
        first_occurrences(cells).len() <= 256,
    ensures
        ({
            let bytes = palette_encoding(cells);
            let start = indices_start(bytes);
            &&& has_magic(bytes)
            &&& bytes.len() >= 6
            &&& start == 6 + 2 * first_occurrences(cells).len()
            &&& bytes.len() == start + cells.len()
            &&& forall|i: int| 0 <= i < cells.len() ==> {
                let pal = bytes.subrange(6, start);
                let idx = #[trigger] bytes[start + i] as int;
                &&& idx * 2 + 1 < pal.len()
                &&& le16(pal[idx * 2], pal[idx * 2 + 1]) == cells[i]
            }
        }),
{
    let p = first_occurrences(cells);
    lemma_first_occurrences(cells);
    let bytes = palette_encoding(cells);
    let n = p.len();
    assert(bytes.subrange(0, 4) =~= grid_magic());
    assert(bytes[4] == lo_byte(n as u16) && bytes[5] == hi_byte(n as u16));
    assert(le16(bytes[4], bytes[5]) == n);
    let start = indices_start(bytes);
    assert forall|i: int| 0 <= i < cells.len() implies {
        let pal = bytes.subrange(6, start);
        let idx = #[trigger] bytes[start + i] as int;
        &&& idx * 2 + 1 < pal.len()
        &&& le16(pal[idx * 2], pal[idx * 2 + 1]) == cells[i]
    } by {
        let pal = bytes.subrange(6, start);
        assert(pal =~= palette_bytes(p));
        assert(p.contains(cells[i]));
        let c = palette_pos(p, cells[i]);
        assert(0 <= c < p.len() && p[c] == cells[i]);
        assert(bytes[start + i] == c as u8);
        let v = cells[i];
        assert(pal[c * 2] == lo_byte(v) && pal[c * 2 + 1] == hi_byte(v));
    }
}

/// The game reads back exactly the cells the generator encoded: the grid read from the palette
/// encoding of `cells` gives cell `i` of them at every index `i`.
pub proof fn law_grid_reads_encoding(cells: Seq<u16>, g: EditorPlanetGrid)
    requires
        first_occurrences(cells).len() <= 256,
        grid_read(palette_encoding(cells), g),
    ensures
        grid_readable(palette_encoding(cells)),
        forall|i: int| 0 <= i < cells.len() ==> #[trigger] g.cell_ok(i) && g.spec_cell(i) == cells[i],
{
    law_palette_roundtrip(cells);
    let bytes = palette_encoding(cells);
    let start = indices_start(bytes);
    let pal = bytes.subrange(6, start);
    assert forall|i: int| 0 <= i < cells.len() implies #[trigger] g.cell_ok(i) && g.spec_cell(i) == cells[i] by {
        let idx = bytes[start + i] as int;
        assert(g->indices@[i] == bytes[start + i]);
        assert(g->palette@ == pal);
        assert(idx * 2 + 1 < pal.len() && le16(pal[idx * 2], pal[idx * 2 + 1]) == cells[i]);
    }
}

} // verus!
