//! Space stations: binary-space-partition rooms joined by corridors, over several decks.
use vstd::prelude::*;
use rand::rngs::SmallRng;
use crate::rng::{small_range_usize, small_ratio};
use crate::level::{between_excl, fill_rect, grid_dims, in_rect, l_path, paint, set_cells, Level, LocationType, Tile};
use crate::galaxy::{level_filled, level_fits, Location};
use crate::rng::small_rng_from_seed;

verus! {

/// Side of the square station footprint, in tiles.
pub const STATION_SIZE: usize = 64;
/// Empty space around the station on every side.
pub const STATION_MARGIN: usize = 16;

/// What a generated station looks like: its name, number of decks, rooms per deck and seed.
pub struct StationParams {
    pub name: &'static str,
    pub decks: usize,
    pub rooms_per_deck: usize,
    pub seed: Option<u64>,
}

impl StationParams {
    /// Two decks of seven rooms, unseeded.
    pub fn new(name: &'static str) -> (p: Self)
        ensures
            p.name == name,
            p.decks == 2,
            p.rooms_per_deck == 7,
            p.seed is None,
    {
        StationParams { name, decks: 2, rooms_per_deck: 7, seed: None }
    }

    pub fn with_seed(self, s: u64) -> (p: Self)
        ensures
            p.seed == Some(s),
            p.name == self.name,
            p.decks == self.decks,
            p.rooms_per_deck == self.rooms_per_deck,
    {
        let mut p = self;
        p.seed = Some(s);
        p
    }

    pub fn with_decks(self, d: usize) -> (p: Self)
        ensures
            p.decks == d,
            p.name == self.name,
            p.rooms_per_deck == self.rooms_per_deck,
            p.seed == self.seed,
    {
        let mut p = self;
        p.decks = d;
        p
    }

    pub fn with_rooms(self, r: usize) -> (p: Self)
        ensures
            p.rooms_per_deck == r,
            p.name == self.name,
            p.decks == self.decks,
            p.seed == self.seed,
    {
        let mut p = self;
        p.rooms_per_deck = r;
        p
    }
}

/// A rectangle of tiles: corner `(x, y)`, `w` wide and `h` high.
#[derive(Clone, Copy, Debug, PartialEq, Eq, Structural)]
pub struct Rect {
    pub x: usize,
    pub y: usize,
    pub w: usize,
    pub h: usize,
}

/// `r` stays well inside `usize`, so its far edges and a few tiles past them can be computed.
pub open spec fn rect_small(r: Rect) -> bool {
    r.x + r.w + 4 <= usize::MAX && r.y + r.h + 4 <= usize::MAX
}

/// A cell of the partition: far enough inside `usize` that a room carved in it is small too.
pub open spec fn cell_small(r: Rect) -> bool {
    r.x + r.w + 8 <= usize::MAX && r.y + r.h + 8 <= usize::MAX
}

pub open spec fn spec_center(r: Rect) -> (usize, usize) {
    ((r.x + r.w / 2) as usize, (r.y + r.h / 2) as usize)
}

pub open spec fn sat_sub(a: usize, b: usize) -> usize {
    if a >= b { (a - b) as usize } else { 0 }
}

pub open spec fn spec_inner(r: Rect) -> Rect {
    Rect { x: (r.x + 1) as usize, y: (r.y + 1) as usize, w: sat_sub(r.w, 2), h: sat_sub(r.h, 2) }
}

/// `a` lies inside `b`.
pub open spec fn rect_within(a: Rect, b: Rect) -> bool {
    b.x <= a.x && a.x + a.w <= b.x + b.w && b.y <= a.y && a.y + a.h <= b.y + b.h
}

/// `a` and `b` share no tile.
pub open spec fn rects_disjoint(a: Rect, b: Rect) -> bool {
    a.x + a.w <= b.x || b.x + b.w <= a.x || a.y + a.h <= b.y || b.y + b.h <= a.y
}

impl Rect {
    pub fn center(&self) -> (c: (usize, usize))
        requires
            rect_small(*self),
        ensures
            c == spec_center(*self),
    {
        (self.x + self.w / 2, self.y + self.h / 2)
    }

    /// The rectangle one tile in from every side.
    pub fn inner(&self) -> (r: Rect)
        requires
            rect_small(*self),
        ensures
            r == spec_inner(*self),
    {
        Rect {
            x: self.x + 1,
            y: self.y + 1,
            w: if self.w >= 2 { self.w - 2 } else { 0 },
            h: if self.h >= 2 { self.h - 2 } else { 0 },
        }
    }
}

/// A node of the binary space partition: a cell that is either a leaf with a room carved in it,
/// or split in two.
pub struct BspNode {
    pub cell: Rect,
    pub left: Option<Box<BspNode>>,
    pub right: Option<Box<BspNode>>,
    pub room: Option<Rect>,
}

/// The room of a leaf: inset from the cell by `ix` and `iy` tiles (each at least one and at most
/// a quarter of the side, or one), at least three tiles on a side.
pub open spec fn leaf_room_ok(cell: Rect, r: Rect) -> bool {
    exists|ix: usize, iy: usize| {
        &&& 1 <= ix && ix <= (if cell.w / 4 >= 1 { cell.w / 4 } else { 1 })
        &&& 1 <= iy && iy <= (if cell.h / 4 >= 1 { cell.h / 4 } else { 1 })
        &&& #[trigger] room_at(cell, ix, iy) == r
    }
}

pub open spec fn room_at(cell: Rect, ix: usize, iy: usize) -> Rect {
    Rect {
        x: (cell.x + ix) as usize,
        y: (cell.y + iy) as usize,
        w: if sat_sub(cell.w, (2 * ix) as usize) >= 3 { sat_sub(cell.w, (2 * ix) as usize) } else { 3 },
        h: if sat_sub(cell.h, (2 * iy) as usize) >= 3 { sat_sub(cell.h, (2 * iy) as usize) } else { 3 },
    }
}

/// `cell` cut by a vertical line `s` tiles in: the left and the right part.
pub open spec fn hsplit(cell: Rect, s: usize) -> (Rect, Rect) {
    (Rect { x: cell.x, y: cell.y, w: s, h: cell.h },
     Rect { x: (cell.x + s) as usize, y: cell.y, w: (cell.w - s) as usize, h: cell.h })
}

/// `cell` cut by a horizontal line `s` tiles down: the top and the bottom part.
pub open spec fn vsplit(cell: Rect, s: usize) -> (Rect, Rect) {
    (Rect { x: cell.x, y: cell.y, w: cell.w, h: s },
     Rect { x: cell.x, y: (cell.y + s) as usize, w: cell.w, h: (cell.h - s) as usize })
}

/// `a` and `b` cut `cell` in two along a vertical or horizontal line, each side at least `min`.
pub open spec fn split_ok(cell: Rect, a: Rect, b: Rect, min: usize) -> bool {
    ||| (exists|s: usize| min <= s && s + min <= cell.w && #[trigger] hsplit(cell, s) == (a, b))
    ||| (exists|s: usize| min <= s && s + min <= cell.h && #[trigger] vsplit(cell, s) == (a, b))
}

/// A well-formed partition: leaves carry a room, inner nodes split their cell in two.
pub open spec fn bsp_ok(n: BspNode, min: usize) -> bool
    decreases n,
{
    match n.room {
        Some(r) => n.left is None && n.right is None && leaf_room_ok(n.cell, r),
        None => match n.left {
            Some(l) => match n.right {
                Some(rt) => split_ok(n.cell, l.cell, rt.cell, min) && bsp_ok(*l, min) && bsp_ok(*rt, min),
                None => false,
            },
            None => false,
        },
    }
}

/// The rooms of the partition, left subtree first.
pub open spec fn spec_rooms(n: BspNode) -> Seq<Rect>
    decreases n,
{
    match n.room {
        Some(r) => seq![r],
        None => {
            let ls = match n.left { Some(l) => spec_rooms(*l), None => Seq::empty() };
            let rs = match n.right { Some(r) => spec_rooms(*r), None => Seq::empty() };
            ls + rs
        },
    }
}

/// A point inside the subtree's rooms: the center of its leftmost room.
pub open spec fn spec_node_center(n: BspNode) -> (usize, usize)
    decreases n,
{
    match n.room {
        Some(r) => spec_center(r),
        None => match n.left {
            Some(l) => spec_node_center(*l),
            None => spec_center(n.cell),
        },
    }
}

/// The corridors joining sibling subtrees, pre-order.
pub open spec fn spec_corridors(n: BspNode) -> Seq<((usize, usize), (usize, usize))>
    decreases n,
{
    match n.left {
        Some(l) => match n.right {
            Some(r) => seq![(spec_node_center(*l), spec_node_center(*r))] + spec_corridors(*l) + spec_corridors(*r),
            None => Seq::empty(),
        },
        None => Seq::empty(),
    }
}

/// Every cell and room of the subtree stays well inside `usize`.
pub open spec fn bsp_small(n: BspNode) -> bool
    decreases n,
{
    &&& cell_small(n.cell)
    &&& (match n.room { Some(r) => rect_small(r), None => true })
    &&& (match n.left { Some(l) => bsp_small(*l), None => true })
    &&& (match n.right { Some(r) => bsp_small(*r), None => true })
}

impl BspNode {
    pub fn leaf(cell: Rect) -> (n: Self)
        ensures
            n.cell == cell,
            n.left is None,
            n.right is None,
            n.room is None,
    {
        BspNode { cell, left: None, right: None, room: None }
    }

    /// An inner node over `cell` with the two halves `l` and `r`.
    fn join(cell: Rect, l: BspNode, r: BspNode, min_size: usize) -> (n: Self)
        requires
            split_ok(cell, l.cell, r.cell, min_size),
            bsp_ok(l, min_size),
            bsp_ok(r, min_size),
            bsp_small(l),
            bsp_small(r),
            cell_small(cell),
        ensures
            n == (BspNode { cell, left: Some(Box::new(l)), right: Some(Box::new(r)), room: None }),
            bsp_ok(n, min_size),
            bsp_small(n),
    {
        BspNode { cell, left: Some(Box::new(l)), right: Some(Box::new(r)), room: None }
    }

    /// Splits the cell recursively, at most `depth` levels deep, into cells at least `min_size`
    /// on a side, carving a room in every leaf. Cells that are too small, and now and then a
    /// medium-sized one, stop early.
    pub fn split(self, rng: &mut SmallRng, min_size: usize, depth: usize) -> (n: Self)
        requires
            1 <= min_size,
            2 * min_size <= usize::MAX,
            cell_small(self.cell),
            self.left is None,
            self.right is None,
            self.room is None,
        ensures
            n.cell == self.cell,
            bsp_ok(n, min_size),
            bsp_small(n),
            exists|draws: Seq<usize>| #[trigger] bsp_grow(self.cell, min_size, depth as nat, draws, 0) == (n, draws.len() as int),
    {
        let (n, Ghost(after)) = BspNode::grow(self.cell, rng, min_size, depth, Ghost(Seq::empty()));
        assert(bsp_grow(self.cell, min_size, depth as nat, after, 0) == (n, after.len() as int));
        n
    }

    /// `split` on `cell`, recording the draws it makes after those already made, `before`.
    #[verifier::spinoff_prover]
    #[verifier::rlimit(40)]
    fn grow(cell: Rect, rng: &mut SmallRng, min_size: usize, depth: usize, Ghost(before): Ghost<Seq<usize>>)
        -> (r: (Self, Ghost<Seq<usize>>))
        requires
            1 <= min_size,
            2 * min_size <= usize::MAX,
            cell_small(cell),
        ensures
            r.0.cell == cell,
            bsp_ok(r.0, min_size),
            bsp_small(r.0),
            before.len() <= r.1@.len(),
            forall|i: int| 0 <= i < before.len() ==> r.1@[i] == before[i],
            bsp_grow(cell, min_size, depth as nat, r.1@, before.len() as int) == (r.0, r.1@.len() as int),
        decreases depth,
    {
        let can_split = cell.w >= min_size * 2 || cell.h >= min_size * 2;
        let medium = cell.w <= 22 && cell.h <= 22;
        if depth == 0 || !can_split {
            proof { reveal(bsp_grow); }
            let (n, g) = BspNode::grow_leaf(cell, rng, false, Ghost(before));
            return (n, g);
        }
        let mut drawn = Ghost(before);
        let early_stop = if medium {
            let b = small_ratio(rng, 1, 4);
            drawn = Ghost(drawn@.push(if b { 1usize } else { 0usize }));
            b
        } else {
            false
        };
        if early_stop {
            let (n, g) = BspNode::grow_leaf(cell, rng, true, drawn);
            proof {
                reveal(bsp_grow);
                assert(draw_at(g@, before.len() as int) == drawn@[before.len() as int]);
            }
            return (n, g);
        }
        let ghost d1 = drawn@;
        let both = cell.w >= min_size * 2 && cell.h >= min_size * 2;
        let split_h = if both {
            let b = small_ratio(rng, 1, 2);
            drawn = Ghost(drawn@.push(if b { 1usize } else { 0usize }));
            b
        } else {
            cell.w >= min_size * 2
        };
        let ghost d2 = drawn@;
        let dim = if split_h { cell.w } else { cell.h };
        let split = small_range_usize(rng, min_size, dim - min_size + 1);
        drawn = Ghost(drawn@.push(split));
        let ghost mid = drawn@;
        let (left_cell, right_cell) = if split_h {
            (Rect { x: cell.x, y: cell.y, w: split, h: cell.h }, Rect { x: cell.x + split, y: cell.y, w: cell.w - split, h: cell.h })
        } else {
            (Rect { x: cell.x, y: cell.y, w: cell.w, h: split }, Rect { x: cell.x, y: cell.y + split, w: cell.w, h: cell.h - split })
        };
        assert(split_h ==> hsplit(cell, split) == (left_cell, right_cell));
        assert(!split_h ==> vsplit(cell, split) == (left_cell, right_cell));
        let (l, gl) = BspNode::grow(left_cell, rng, min_size, depth - 1, drawn);
        let (r, gr) = BspNode::grow(right_cell, rng, min_size, depth - 1, gl);
        proof {
            lemma_bsp_grow_mono(left_cell, min_size, (depth - 1) as nat, gl@, mid.len() as int);
            lemma_bsp_grow_frame(left_cell, min_size, (depth - 1) as nat, gl@, gr@, mid.len() as int);
            let fin = gr@;
            let u = before.len() as int;
            let u1 = if medium { u + 1 } else { u };
            let u2 = if both { u1 + 1 } else { u1 };
            assert(d1.len() == u1);
            assert(d2.len() == u2);
            assert(mid.len() == u2 + 1);
            assert forall|i: int| 0 <= i < mid.len() implies fin[i] == mid[i] by {
                assert(gl@[i] == mid[i]);
            }
            if medium {
                assert(fin[u] == mid[u] && mid[u] == d1[u]);
            }
            if both {
                assert(fin[u1] == mid[u1] && mid[u1] == d2[u1]);
            }
            assert(fin[u2] == mid[u2]);
            lemma_grow_node(cell, min_size, depth as nat, fin, u, split_h, split, l, r, gl@.len() as int, fin.len() as int);
        }
        (BspNode::join(cell, l, r, min_size), gr)
    }

    /// A leaf over `cell` with a room carved in it, recording its two inset draws after `before`.
    fn grow_leaf(cell: Rect, rng: &mut SmallRng, fat: bool, Ghost(before): Ghost<Seq<usize>>) -> (r: (Self, Ghost<Seq<usize>>))
        requires
            cell_small(cell),
        ensures
            r.0.cell == cell,
            forall|m: usize| bsp_ok(r.0, m),
            bsp_small(r.0),
            r.1@ == before.push(draw_at(r.1@, before.len() as int)).push(draw_at(r.1@, before.len() + 1int)),
            leaf_grow(cell, fat, r.1@, before.len() as int) == (r.0, r.1@.len() as int),
    {
        let max_inset_x: usize = if fat { 1 } else if cell.w / 4 >= 1 { cell.w / 4 } else { 1 };
        let max_inset_y: usize = if fat { 1 } else if cell.h / 4 >= 1 { cell.h / 4 } else { 1 };
        let inset_x = small_range_usize(rng, 1, max_inset_x + 1);
        let inset_y = small_range_usize(rng, 1, max_inset_y + 1);
        let sw: usize = if cell.w >= inset_x * 2 { cell.w - inset_x * 2 } else { 0 };
        let sh: usize = if cell.h >= inset_y * 2 { cell.h - inset_y * 2 } else { 0 };
        let rw: usize = if sw >= 3 { sw } else { 3 };
        let rh: usize = if sh >= 3 { sh } else { 3 };
        let room = Rect { x: cell.x + inset_x, y: cell.y + inset_y, w: rw, h: rh };
        assert(room_at(cell, inset_x, inset_y) == room);
        let ghost after = before.push(inset_x).push(inset_y);
        assert(draw_at(after, before.len() as int) == inset_x);
        assert(draw_at(after, before.len() + 1int) == inset_y);
        (BspNode { cell, left: None, right: None, room: Some(room) }, Ghost(after))
    }
}

impl BspNode {
    /// The partition `split` makes of `cell` when its draws are `draws`, in the order it makes
    /// them: `bsp_grow` from the first draw (missing draws count as zero, and a draw out of its
    /// range as the range's low end).
    pub fn split_with(cell: Rect, min_size: usize, depth: usize, draws: &Vec<usize>) -> (n: Self)
        requires
            1 <= min_size,
            2 * min_size <= usize::MAX,
            cell_small(cell),
        ensures
            n == bsp_grow(cell, min_size, depth as nat, draws@, 0).0,
    {
        let (n, _) = BspNode::grow_draws(cell, min_size, depth, draws, 0, Ghost(0));
        n
    }

    fn take_draw(draws: &Vec<usize>, c: usize, Ghost(su): Ghost<int>) -> (r: (usize, usize))
        requires
            su >= 0,
            c == (if su < draws@.len() { su } else { draws@.len() as int }),
        ensures
            r.0 == draw_at(draws@, su),
            r.1 == (if su + 1 < draws@.len() { su + 1 } else { draws@.len() as int }),
    {
        if c < draws.len() { (draws[c], c + 1) } else { (0, c) }
    }

    fn leaf_with(cell: Rect, fat: bool, draws: &Vec<usize>, c: usize, Ghost(su): Ghost<int>) -> (r: (Self, usize))
        requires
            cell_small(cell),
            su >= 0,
            c == (if su < draws@.len() { su } else { draws@.len() as int }),
        ensures
            r.0 == leaf_grow(cell, fat, draws@, su).0,
            r.1 == (if leaf_grow(cell, fat, draws@, su).1 < draws@.len() { leaf_grow(cell, fat, draws@, su).1 } else { draws@.len() as int }),
    {
        let max_inset_x: usize = if fat { 1 } else if cell.w / 4 >= 1 { cell.w / 4 } else { 1 };
        let max_inset_y: usize = if fat { 1 } else if cell.h / 4 >= 1 { cell.h / 4 } else { 1 };
        let (vx, c1) = BspNode::take_draw(draws, c, Ghost(su));
        let (vy, c2) = BspNode::take_draw(draws, c1, Ghost(su + 1));
        let inset_x = if 1 <= vx && vx < max_inset_x + 1 { vx } else { 1 };
        let inset_y = if 1 <= vy && vy < max_inset_y + 1 { vy } else { 1 };
        let sw: usize = if cell.w >= inset_x * 2 { cell.w - inset_x * 2 } else { 0 };
        let sh: usize = if cell.h >= inset_y * 2 { cell.h - inset_y * 2 } else { 0 };
        let rw: usize = if sw >= 3 { sw } else { 3 };
        let rh: usize = if sh >= 3 { sh } else { 3 };
        let room = Rect { x: cell.x + inset_x, y: cell.y + inset_y, w: rw, h: rh };
        assert(room_at(cell, inset_x, inset_y) == room);
        (BspNode { cell, left: None, right: None, room: Some(room) }, c2)
    }

    #[verifier::spinoff_prover]
    fn grow_draws(cell: Rect, min_size: usize, depth: usize, draws: &Vec<usize>, c: usize, Ghost(su): Ghost<int>) -> (r: (Self, usize))
        requires
            1 <= min_size,
            2 * min_size <= usize::MAX,
            cell_small(cell),
            su >= 0,
            c == (if su < draws@.len() { su } else { draws@.len() as int }),
        ensures
            r.0 == bsp_grow(cell, min_size, depth as nat, draws@, su).0,
            r.1 == (if bsp_grow(cell, min_size, depth as nat, draws@, su).1 < draws@.len() {
                bsp_grow(cell, min_size, depth as nat, draws@, su).1
            } else {
                draws@.len() as int
            }),
        decreases depth,
    {
        let can_split = cell.w >= min_size * 2 || cell.h >= min_size * 2;
        let medium = cell.w <= 22 && cell.h <= 22;
        if depth == 0 || !can_split {
            proof { lemma_grow_leaf_case(cell, min_size, depth as nat, draws@, su); }
            return BspNode::leaf_with(cell, false, draws, c, Ghost(su));
        }
        let mut cur = c;
        let ghost mut u = su;
        if medium {
            let (v, c1) = BspNode::take_draw(draws, cur, Ghost(u));
            if v != 0 {
                proof { lemma_grow_leaf_case(cell, min_size, depth as nat, draws@, su); }
                return BspNode::leaf_with(cell, true, draws, c1, Ghost(u + 1));
            }
            cur = c1;
            proof { u = u + 1; }
        }
        let both = cell.w >= min_size * 2 && cell.h >= min_size * 2;
        let split_h = if both {
            let (v, c2) = BspNode::take_draw(draws, cur, Ghost(u));
            cur = c2;
            proof { u = u + 1; }
            v != 0
        } else {
            cell.w >= min_size * 2
        };
        let dim = if split_h { cell.w } else { cell.h };
        let (v, c3) = BspNode::take_draw(draws, cur, Ghost(u));
        let split = if min_size <= v && v < dim - min_size + 1 { v } else { min_size };
        let (left_cell, right_cell) = if split_h {
            (Rect { x: cell.x, y: cell.y, w: split, h: cell.h }, Rect { x: cell.x + split, y: cell.y, w: cell.w - split, h: cell.h })
        } else {
            (Rect { x: cell.x, y: cell.y, w: cell.w, h: split }, Rect { x: cell.x, y: cell.y + split, w: cell.w, h: cell.h - split })
        };
        assert(split_h ==> hsplit(cell, split) == (left_cell, right_cell));
        assert(!split_h ==> vsplit(cell, split) == (left_cell, right_cell));
        let ghost ul = bsp_grow(left_cell, min_size, (depth - 1) as nat, draws@, u + 1).1;
        proof { lemma_bsp_grow_mono(left_cell, min_size, (depth - 1) as nat, draws@, u + 1); }
        let (l, cl) = BspNode::grow_draws(left_cell, min_size, depth - 1, draws, c3, Ghost(u + 1));
        let (r, cr) = BspNode::grow_draws(right_cell, min_size, depth - 1, draws, cl, Ghost(ul));
        proof {
            let ur = bsp_grow(right_cell, min_size, (depth - 1) as nat, draws@, ul).1;
            lemma_grow_node(cell, min_size, depth as nat, draws@, su, split_h, split, l, r, ul, ur);
        }
        (BspNode { cell, left: Some(Box::new(l)), right: Some(Box::new(r)), room: None }, cr)
    }
}

/// Draw number `u` of `d`, zero when there is none.
pub open spec fn draw_at(d: Seq<usize>, u: int) -> usize {
    if 0 <= u < d.len() { d[u] } else { 0 }
}

/// The draw `v` when it lies in `[lo, hi)`, else `lo`.
pub open spec fn in_range(v: usize, lo: usize, hi: usize) -> usize {
    if lo <= v < hi { v } else { lo }
}

/// The leaf over `cell` the draws from number `u` on give (its two insets; one each for a fat
/// room), with the number of the next draw.
pub open spec fn leaf_grow(cell: Rect, fat: bool, d: Seq<usize>, u: int) -> (BspNode, int) {
    let mx: usize = if fat { 1 } else if cell.w / 4 >= 1 { cell.w / 4 } else { 1 };
    let my: usize = if fat { 1 } else if cell.h / 4 >= 1 { cell.h / 4 } else { 1 };
    let ix = in_range(draw_at(d, u), 1, (mx + 1) as usize);
    let iy = in_range(draw_at(d, u + 1), 1, (my + 1) as usize);
    (BspNode { cell, left: None, right: None, room: Some(room_at(cell, ix, iy)) }, u + 2)
}

/// The partition of `cell` the draws from number `u` on give, with the number of the next draw.
/// A cell that may not split further (depth spent, or too small on both sides) is a leaf; a
/// medium cell (at most 22 on each side) first takes an early-stop draw (non-zero stops it, as a
/// fat leaf); a cell large enough both ways takes an orientation draw (non-zero cuts it with a
/// vertical line); then the cut's position is drawn and both halves are grown, left first.
#[verifier::opaque]
pub open spec fn bsp_grow(cell: Rect, min: usize, depth: nat, d: Seq<usize>, u: int) -> (BspNode, int)
    decreases depth,
{
    let can = cell.w >= 2 * min || cell.h >= 2 * min;
    let medium = cell.w <= 22 && cell.h <= 22;
    if depth == 0 || !can {
        leaf_grow(cell, false, d, u)
    } else if medium && draw_at(d, u) != 0 {
        leaf_grow(cell, true, d, u + 1)
    } else {
        let u1 = if medium { u + 1 } else { u };
        let both = cell.w >= 2 * min && cell.h >= 2 * min;
        let sh = if both { draw_at(d, u1) != 0 } else { cell.w >= 2 * min };
        let u2 = if both { u1 + 1 } else { u1 };
        let dim = if sh { cell.w } else { cell.h };
        let s = in_range(draw_at(d, u2), min, (dim - min + 1) as usize);
        let halves = if sh { hsplit(cell, s) } else { vsplit(cell, s) };
        let l = bsp_grow(halves.0, min, (depth - 1) as nat, d, u2 + 1);
        let r = bsp_grow(halves.1, min, (depth - 1) as nat, d, l.1);
        (BspNode { cell, left: Some(Box::new(l.0)), right: Some(Box::new(r.0)), room: None }, r.1)
    }
}

/// An inner node: when the early-stop draw (if any) is zero, the orientation and cut are the ones
/// drawn and the halves grow into `l` and `r`, the cell grows into the node over them.
proof fn lemma_grow_node(cell: Rect, min: usize, depth: nat, d: Seq<usize>, u: int, sh: bool, s: usize, l: BspNode, r: BspNode, ul: int, ur: int)
    requires
        depth > 0,
        min >= 1,
        cell.w >= 2 * min || cell.h >= 2 * min,
        u >= 0,
        ({
            let medium = cell.w <= 22 && cell.h <= 22;
            let both = cell.w >= 2 * min && cell.h >= 2 * min;
            let u1 = if medium { u + 1 } else { u };
            let u2 = if both { u1 + 1 } else { u1 };
            let dim = if sh { cell.w } else { cell.h };
            &&& medium ==> draw_at(d, u) == 0
            &&& both ==> (draw_at(d, u1) != 0) == sh
            &&& !both ==> sh == (cell.w >= 2 * min)
            &&& in_range(draw_at(d, u2), min, (dim - min + 1) as usize) == s
            &&& min <= s < dim - min + 1
            &&& bsp_grow((if sh { hsplit(cell, s) } else { vsplit(cell, s) }).0, min, (depth - 1) as nat, d, u2 + 1) == (l, ul)
            &&& bsp_grow((if sh { hsplit(cell, s) } else { vsplit(cell, s) }).1, min, (depth - 1) as nat, d, ul) == (r, ur)
        }),
    ensures
        bsp_grow(cell, min, depth, d, u) == (BspNode { cell, left: Some(Box::new(l)), right: Some(Box::new(r)), room: None }, ur),
{
    reveal(bsp_grow);
    let medium = cell.w <= 22 && cell.h <= 22;
    let both = cell.w >= 2 * min && cell.h >= 2 * min;
    let u1 = if medium { u + 1 } else { u };
    let u2 = if both { u1 + 1 } else { u1 };
    let dim = if sh { cell.w } else { cell.h };
    let sh2 = if both { draw_at(d, u1) != 0 } else { cell.w >= 2 * min };
    assert(sh2 == sh);
    assert(in_range(draw_at(d, u2), min, (dim - min + 1) as usize) == s);
    assert(!(medium && draw_at(d, u) != 0));
}

/// A cell that may not split, or a medium one whose early-stop draw is non-zero, grows into a leaf.
proof fn lemma_grow_leaf_case(cell: Rect, min: usize, depth: nat, d: Seq<usize>, u: int)
    ensures
        depth == 0 || !(cell.w >= 2 * min || cell.h >= 2 * min) ==> bsp_grow(cell, min, depth, d, u) == leaf_grow(cell, false, d, u),
        depth > 0 && (cell.w >= 2 * min || cell.h >= 2 * min) && cell.w <= 22 && cell.h <= 22 && draw_at(d, u) != 0
            ==> bsp_grow(cell, min, depth, d, u) == leaf_grow(cell, true, d, u + 1),
{
    reveal(bsp_grow);
}

proof fn lemma_bsp_grow_mono(cell: Rect, min: usize, depth: nat, d: Seq<usize>, u: int)
    ensures
        bsp_grow(cell, min, depth, d, u).1 >= u,
    decreases depth,
{
    reveal(bsp_grow);
    let can = cell.w >= 2 * min || cell.h >= 2 * min;
    let medium = cell.w <= 22 && cell.h <= 22;
    if depth == 0 || !can {
    } else if medium && draw_at(d, u) != 0 {
    } else {
        let u1 = if medium { u + 1 } else { u };
        let both = cell.w >= 2 * min && cell.h >= 2 * min;
        let sh = if both { draw_at(d, u1) != 0 } else { cell.w >= 2 * min };
        let u2 = if both { u1 + 1 } else { u1 };
        let dim = if sh { cell.w } else { cell.h };
        let s = in_range(draw_at(d, u2), min, (dim - min + 1) as usize);
        let halves = if sh { hsplit(cell, s) } else { vsplit(cell, s) };
        let l = bsp_grow(halves.0, min, (depth - 1) as nat, d, u2 + 1);
        lemma_bsp_grow_mono(halves.0, min, (depth - 1) as nat, d, u2 + 1);
        lemma_bsp_grow_mono(halves.1, min, (depth - 1) as nat, d, l.1);
    }
}

/// Draws past those the growth uses change nothing.
proof fn lemma_bsp_grow_frame(cell: Rect, min: usize, depth: nat, d1: Seq<usize>, d2: Seq<usize>, u: int)
    requires
        u >= 0,
        d1.len() <= d2.len(),
        forall|i: int| 0 <= i < d1.len() ==> d2[i] == d1[i],
        bsp_grow(cell, min, depth, d1, u).1 <= d1.len(),
    ensures
        bsp_grow(cell, min, depth, d2, u) == bsp_grow(cell, min, depth, d1, u),
    decreases depth,
{
    reveal(bsp_grow);
    let can = cell.w >= 2 * min || cell.h >= 2 * min;
    let medium = cell.w <= 22 && cell.h <= 22;
    if depth == 0 || !can {
    } else if medium && draw_at(d1, u) != 0 {
    } else {
        let u1 = if medium { u + 1 } else { u };
        let both = cell.w >= 2 * min && cell.h >= 2 * min;
        let sh = if both { draw_at(d1, u1) != 0 } else { cell.w >= 2 * min };
        let u2 = if both { u1 + 1 } else { u1 };
        let dim = if sh { cell.w } else { cell.h };
        let s = in_range(draw_at(d1, u2), min, (dim - min + 1) as usize);
        let halves = if sh { hsplit(cell, s) } else { vsplit(cell, s) };
        let l = bsp_grow(halves.0, min, (depth - 1) as nat, d1, u2 + 1);
        lemma_bsp_grow_mono(halves.0, min, (depth - 1) as nat, d1, u2 + 1);
        lemma_bsp_grow_mono(halves.1, min, (depth - 1) as nat, d1, l.1);
        lemma_bsp_grow_frame(halves.0, min, (depth - 1) as nat, d1, d2, u2 + 1);
        lemma_bsp_grow_frame(halves.1, min, (depth - 1) as nat, d1, d2, l.1);
    }
}

impl BspNode {
    /// The rooms of the partition, left subtree first.
    pub fn rooms(&self) -> (v: Vec<Rect>)
        ensures
            v@ == spec_rooms(*self),
        decreases self,
    {
        match &self.room {
            Some(r) => {
                let mut v: Vec<Rect> = Vec::new();
                v.push(*r);
                v
            },
            None => {
                let mut v: Vec<Rect> = Vec::new();
                if let Some(l) = &self.left {
                    let mut lv = l.rooms();
                    v.append(&mut lv);
                }
                if let Some(r) = &self.right {
                    let mut rv = r.rooms();
                    v.append(&mut rv);
                }
                assert(v@ =~= spec_rooms(*self));
                v
            },
        }
    }

    /// A point within the subtree's rooms: the center of its leftmost room.
    pub fn center(&self) -> (c: (usize, usize))
        requires
            bsp_small(*self),
        ensures
            c == spec_node_center(*self),
        decreases self,
    {
        match &self.room {
            Some(r) => r.center(),
            None => match &self.left {
                Some(l) => l.center(),
                None => self.cell.center(),
            },
        }
    }

    /// Appends the corridors joining every pair of sibling subtrees, pre-order.
    pub fn collect_corridors(&self, corridors: &mut Vec<((usize, usize), (usize, usize))>)
        requires
            bsp_small(*self),
        ensures
            final(corridors)@ == old(corridors)@ + spec_corridors(*self),
        decreases self,
    {
        match &self.left {
            Some(l) => match &self.right {
                Some(r) => {
                    corridors.push((l.center(), r.center()));
                    l.collect_corridors(corridors);
                    r.collect_corridors(corridors);
                    proof {
                        assert(final(corridors)@ =~= old(corridors)@ + spec_corridors(*self));
                    }
                },
                None => {
                    assert(old(corridors)@ + spec_corridors(*self) =~= old(corridors)@);
                },
            },
            None => {
                assert(old(corridors)@ + spec_corridors(*self) =~= old(corridors)@);
            },
        }
    }
}

/// A tile after a corridor passes: on the path, wall and vacuum become deck plating; on a flank,
/// vacuum becomes wall; anything else stays.
pub open spec fn corridor_tile(t: Tile, on_path: bool, on_flank: bool) -> Tile {
    if on_path {
        if t == Tile::StationWall || t == Tile::Vacuum { Tile::DeckPlate } else { t }
    } else if on_flank && t == Tile::Vacuum {
        Tile::StationWall
    } else {
        t
    }
}

/// The grid after corridors over the tiles `path` and flanks `flank`.
pub open spec fn corridor_paint(cells: Seq<Seq<Tile>>, path: spec_fn(int, int) -> bool, flank: spec_fn(int, int) -> bool) -> Seq<Seq<Tile>> {
    Seq::new(
        cells.len(),
        |r: int| Seq::new(cells[r].len(), |c: int| corridor_tile(cells[r][c], path(c, r), flank(c, r))),
    )
}

pub open spec fn at(x: int, y: int) -> spec_fn(int, int) -> bool {
    |c: int, r: int| c == x && r == y
}

pub open spec fn nowhere() -> spec_fn(int, int) -> bool {
    |c: int, r: int| false
}

pub open spec fn either(p: spec_fn(int, int) -> bool, q: spec_fn(int, int) -> bool) -> spec_fn(int, int) -> bool {
    |c: int, r: int| p(c, r) || q(c, r)
}

/// The two tiles beside `(x, y)` across the direction of travel.
pub open spec fn flanks_of(x: int, y: int, horizontal: bool) -> spec_fn(int, int) -> bool {
    |c: int, r: int| if horizontal { c == x && (r == y - 1 || r == y + 1) } else { r == y && (c == x - 1 || c == x + 1) }
}

/// The flanks of the L-shaped corridor from `(x1, y1)` to `(x2, y2)`: above and below the
/// horizontal leg, left and right of the vertical leg and its end.
pub open spec fn l_flanks(x1: int, y1: int, x2: int, y2: int) -> spec_fn(int, int) -> bool {
    |c: int, r: int|
        ((r == y1 - 1 || r == y1 + 1) && between_excl(x1, x2, c))
            || ((c == x2 - 1 || c == x2 + 1) && (between_excl(y1, y2, r) || r == y2))
}

/// Corridors laid one after another are one corridor over the union of their tiles.
pub proof fn lemma_corridor_compose(cells: Seq<Seq<Tile>>, p1: spec_fn(int, int) -> bool, f1: spec_fn(int, int) -> bool, p2: spec_fn(int, int) -> bool, f2: spec_fn(int, int) -> bool)
    ensures
        corridor_paint(corridor_paint(cells, p1, f1), p2, f2) == corridor_paint(cells, either(p1, p2), either(f1, f2)),
{
    let a = corridor_paint(corridor_paint(cells, p1, f1), p2, f2);
    let b = corridor_paint(cells, either(p1, p2), either(f1, f2));
    assert forall|r: int| 0 <= r < cells.len() implies a[r] =~= b[r] by {}
    assert(a =~= b);
}

/// A corridor over no tiles changes nothing.
pub proof fn lemma_corridor_none(cells: Seq<Seq<Tile>>)
    ensures
        corridor_paint(cells, nowhere(), nowhere()) == cells,
{
    let a = corridor_paint(cells, nowhere(), nowhere());
    assert forall|r: int| 0 <= r < cells.len() implies a[r] =~= cells[r] by {}
    assert(a =~= cells);
}

/// Corridors over equal tile sets agree.
pub proof fn lemma_corridor_ext(cells: Seq<Seq<Tile>>, p1: spec_fn(int, int) -> bool, f1: spec_fn(int, int) -> bool, p2: spec_fn(int, int) -> bool, f2: spec_fn(int, int) -> bool)
    requires
        forall|c: int, r: int| #[trigger] p1(c, r) == p2(c, r),
        forall|c: int, r: int| #[trigger] f1(c, r) == f2(c, r),
    ensures
        corridor_paint(cells, p1, f1) == corridor_paint(cells, p2, f2),
{
    let a = corridor_paint(cells, p1, f1);
    let b = corridor_paint(cells, p2, f2);
    assert forall|r: int| 0 <= r < cells.len() implies a[r] =~= b[r] by {
        assert forall|c: int| 0 <= c < a[r].len() implies a[r][c] == b[r][c] by {
            assert(p1(c, r) == p2(c, r));
            assert(f1(c, r) == f2(c, r));
        }
    }
    assert(a =~= b);
}

/// One write of a corridor tile is the corridor over that tile alone.
pub proof fn lemma_corridor_single(cells: Seq<Seq<Tile>>, w: int, h: int, x: int, y: int, path: bool, t: Tile)
    requires
        grid_dims(cells, w, h),
        0 <= x < w && 0 <= y < h,
        t == corridor_tile(cells[y][x], path, !path),
    ensures
        set_cells(cells, w, h, x, y, t) == (if path { corridor_paint(cells, at(x, y), nowhere()) } else { corridor_paint(cells, nowhere(), at(x, y)) }),
{
    let a = set_cells(cells, w, h, x, y, t);
    let b = if path { corridor_paint(cells, at(x, y), nowhere()) } else { corridor_paint(cells, nowhere(), at(x, y)) };
    assert forall|r: int| 0 <= r < cells.len() implies a[r] =~= b[r] by {}
    assert(a =~= b);
}

/// A corridor over a tile that it leaves as it is, or off the grid, changes nothing.
pub proof fn lemma_corridor_noop(cells: Seq<Seq<Tile>>, w: int, h: int, x: int, y: int, path: bool)
    requires
        grid_dims(cells, w, h),
        !(0 <= x < w && 0 <= y < h) || corridor_tile(cells[y][x], path, !path) == cells[y][x],
    ensures
        cells == (if path { corridor_paint(cells, at(x, y), nowhere()) } else { corridor_paint(cells, nowhere(), at(x, y)) }),
{
    let b = if path { corridor_paint(cells, at(x, y), nowhere()) } else { corridor_paint(cells, nowhere(), at(x, y)) };
    assert forall|r: int| 0 <= r < cells.len() implies cells[r] =~= b[r] by {}
    assert(cells =~= b);
}

/// Writes `tile` at `(x, y)` when the tile there is `from` or `also`.
fn replace_tile(level: &mut Level, x: i32, y: i32, from: Tile, also: Tile, path: bool, tile: Tile)
    requires
        old(level).wf(),
        path ==> from == Tile::StationWall && also == Tile::Vacuum && tile == Tile::DeckPlate,
        !path ==> from == Tile::Vacuum && also == Tile::Vacuum && tile == Tile::StationWall,
    ensures
        final(level).wf(),
        final(level).width == old(level).width,
        final(level).height == old(level).height,
        final(level).cells() == (if path {
            corridor_paint(old(level).cells(), at(x as int, y as int), nowhere())
        } else {
            corridor_paint(old(level).cells(), nowhere(), at(x as int, y as int))
        }),
{
    proof { level.lemma_wf_dims(); }
    let cur = level.get(x, y);
    let hit = match cur {
        Some(t) => t == from || t == also,
        None => false,
    };
    if hit {
        proof {
            lemma_corridor_single(level.cells(), level.width as int, level.height as int, x as int, y as int, path, tile);
        }
        level.set(x, y, tile);
    } else {
        proof {
            lemma_corridor_noop(level.cells(), level.width as int, level.height as int, x as int, y as int, path);
        }
    }
}

/// Carves one corridor tile at `(x, y)` and walls off the vacuum beside it, across the
/// direction of travel.
pub fn stamp_corridor_tile(level: &mut Level, x: i32, y: i32, horizontal: bool)
    requires
        old(level).wf(),
        i32::MIN < x < i32::MAX,
        i32::MIN < y < i32::MAX,
    ensures
        final(level).wf(),
        final(level).width == old(level).width,
        final(level).height == old(level).height,
        final(level).cells() == corridor_paint(old(level).cells(), at(x as int, y as int), flanks_of(x as int, y as int, horizontal)),
{
    let ghost c0 = level.cells();
    replace_tile(level, x, y, Tile::StationWall, Tile::Vacuum, true, Tile::DeckPlate);
    let (f1x, f1y, f2x, f2y) = if horizontal { (x, y - 1, x, y + 1) } else { (x - 1, y, x + 1, y) };
    let ghost c1 = level.cells();
    replace_tile(level, f1x, f1y, Tile::Vacuum, Tile::Vacuum, false, Tile::StationWall);
    let ghost c2 = level.cells();
    replace_tile(level, f2x, f2y, Tile::Vacuum, Tile::Vacuum, false, Tile::StationWall);
    proof {
        lemma_corridor_compose(c0, at(x as int, y as int), nowhere(), nowhere(), at(f1x as int, f1y as int));
        lemma_corridor_compose(c0, either(at(x as int, y as int), nowhere()), either(nowhere(), at(f1x as int, f1y as int)),
            nowhere(), at(f2x as int, f2y as int));
        lemma_corridor_ext(c0,
            either(either(at(x as int, y as int), nowhere()), nowhere()),
            either(either(nowhere(), at(f1x as int, f1y as int)), at(f2x as int, f2y as int)),
            at(x as int, y as int), flanks_of(x as int, y as int, horizontal));
    }
}

/// Tiles of the horizontal leg walked so far: row `y` from `ax` up to, not including, `x`.
pub open spec fn leg_h(ax: int, y: int, x: int) -> spec_fn(int, int) -> bool {
    |c: int, r: int| r == y && between_excl(ax, x, c)
}

pub open spec fn leg_h_flanks(ax: int, y: int, x: int) -> spec_fn(int, int) -> bool {
    |c: int, r: int| (r == y - 1 || r == y + 1) && between_excl(ax, x, c)
}

/// Tiles of the vertical leg walked so far: column `x` from `ay` up to, not including, `y`.
pub open spec fn leg_v(x: int, ay: int, y: int) -> spec_fn(int, int) -> bool {
    |c: int, r: int| c == x && between_excl(ay, y, r)
}

pub open spec fn leg_v_flanks(x: int, ay: int, y: int) -> spec_fn(int, int) -> bool {
    |c: int, r: int| (c == x - 1 || c == x + 1) && between_excl(ay, y, r)
}

/// An L-shaped corridor from `(ax, ay)` to `(bx, by)`: along row `ay` first, then down or up
/// column `bx`. Wall and vacuum on the way become deck plating, and vacuum beside it becomes wall.
pub fn carve_corridor(level: &mut Level, ax: usize, ay: usize, bx: usize, by: usize)
    requires
        old(level).wf(),
        ax < 0x7fff_fff0,
        ay < 0x7fff_fff0,
        bx < 0x7fff_fff0,
        by < 0x7fff_fff0,
    ensures
        final(level).wf(),
        final(level).width == old(level).width,
        final(level).height == old(level).height,
        final(level).cells() == corridor_paint(old(level).cells(), l_path(ax as int, ay as int, bx as int, by as int),
            l_flanks(ax as int, ay as int, bx as int, by as int)),
{
    let ghost c0 = level.cells();
    let x0 = ax as i32;
    let y0 = ay as i32;
    let tx = bx as i32;
    let ty = by as i32;
    let mut x = x0;
    let y = y0;
    let dx: i32 = if tx > x { 1 } else if tx < x { -1 } else { 0 };
    proof {
        lemma_corridor_none(c0);
        lemma_corridor_ext(c0, nowhere(), nowhere(), leg_h(x0 as int, y0 as int, x0 as int), leg_h_flanks(x0 as int, y0 as int, x0 as int));
    }
    while x != tx
        invariant
            level.wf(),
            level.width == old(level).width,
            level.height == old(level).height,
            0 <= x0 < 0x7fff_fff0,
            0 <= y0 < 0x7fff_fff0,
            0 <= tx < 0x7fff_fff0,
            y == y0,
            dx == (if tx > x0 { 1i32 } else if tx < x0 { -1i32 } else { 0i32 }),
            between_excl(x0 as int, tx as int, x as int) || x == tx,
            level.cells() == corridor_paint(c0, leg_h(x0 as int, y0 as int, x as int), leg_h_flanks(x0 as int, y0 as int, x as int)),
        decreases if tx >= x { tx - x } else { x - tx },
    {
        stamp_corridor_tile(level, x, y, true);
        proof {
            assert forall|c: int, r: int| #[trigger] leg_h(x0 as int, y0 as int, x + dx)(c, r)
                == either(leg_h(x0 as int, y0 as int, x as int), at(x as int, y as int))(c, r) by {}
            assert forall|c: int, r: int| #[trigger] leg_h_flanks(x0 as int, y0 as int, x + dx)(c, r)
                == either(leg_h_flanks(x0 as int, y0 as int, x as int), flanks_of(x as int, y as int, true))(c, r) by {}
            lemma_corridor_compose(c0, leg_h(x0 as int, y0 as int, x as int), leg_h_flanks(x0 as int, y0 as int, x as int),
                at(x as int, y as int), flanks_of(x as int, y as int, true));
            lemma_corridor_ext(c0,
                either(leg_h(x0 as int, y0 as int, x as int), at(x as int, y as int)),
                either(leg_h_flanks(x0 as int, y0 as int, x as int), flanks_of(x as int, y as int, true)),
                leg_h(x0 as int, y0 as int, x + dx), leg_h_flanks(x0 as int, y0 as int, x + dx));
        }
        x = x + dx;
    }
    let mut yy = y0;
    let dy: i32 = if ty > yy { 1 } else if ty < yy { -1 } else { 0 };
    let ghost c1 = level.cells();
    proof {
        lemma_corridor_none(c1);
        lemma_corridor_compose(c0, leg_h(x0 as int, y0 as int, tx as int), leg_h_flanks(x0 as int, y0 as int, tx as int), nowhere(), nowhere());
        lemma_corridor_ext(c0,
            either(leg_h(x0 as int, y0 as int, tx as int), nowhere()),
            either(leg_h_flanks(x0 as int, y0 as int, tx as int), nowhere()),
            either(leg_h(x0 as int, y0 as int, tx as int), leg_v(tx as int, y0 as int, y0 as int)),
            either(leg_h_flanks(x0 as int, y0 as int, tx as int), leg_v_flanks(tx as int, y0 as int, y0 as int)));
    }
    while yy != ty
        invariant
            level.wf(),
            level.width == old(level).width,
            level.height == old(level).height,
            0 <= x0 < 0x7fff_fff0,
            0 <= y0 < 0x7fff_fff0,
            0 <= tx < 0x7fff_fff0,
            0 <= ty < 0x7fff_fff0,
            x == tx,
            dy == (if ty > y0 { 1i32 } else if ty < y0 { -1i32 } else { 0i32 }),
            between_excl(y0 as int, ty as int, yy as int) || yy == ty,
            level.cells() == corridor_paint(c0,
                either(leg_h(x0 as int, y0 as int, tx as int), leg_v(tx as int, y0 as int, yy as int)),
                either(leg_h_flanks(x0 as int, y0 as int, tx as int), leg_v_flanks(tx as int, y0 as int, yy as int))),
        decreases if ty >= yy { ty - yy } else { yy - ty },
    {
        stamp_corridor_tile(level, x, yy, false);
        proof {
            assert forall|c: int, r: int| #[trigger] leg_v(tx as int, y0 as int, yy + dy)(c, r)
                == either(leg_v(tx as int, y0 as int, yy as int), at(x as int, yy as int))(c, r) by {}
            assert forall|c: int, r: int| #[trigger] leg_v_flanks(tx as int, y0 as int, yy + dy)(c, r)
                == either(leg_v_flanks(tx as int, y0 as int, yy as int), flanks_of(x as int, yy as int, false))(c, r) by {}
            lemma_corridor_compose(c0,
                either(leg_h(x0 as int, y0 as int, tx as int), leg_v(tx as int, y0 as int, yy as int)),
                either(leg_h_flanks(x0 as int, y0 as int, tx as int), leg_v_flanks(tx as int, y0 as int, yy as int)),
                at(x as int, yy as int), flanks_of(x as int, yy as int, false));
            lemma_corridor_ext(c0,
                either(either(leg_h(x0 as int, y0 as int, tx as int), leg_v(tx as int, y0 as int, yy as int)), at(x as int, yy as int)),
                either(either(leg_h_flanks(x0 as int, y0 as int, tx as int), leg_v_flanks(tx as int, y0 as int, yy as int)), flanks_of(x as int, yy as int, false)),
                either(leg_h(x0 as int, y0 as int, tx as int), leg_v(tx as int, y0 as int, yy + dy)),
                either(leg_h_flanks(x0 as int, y0 as int, tx as int), leg_v_flanks(tx as int, y0 as int, yy + dy)));
        }
        yy = yy + dy;
    }
    stamp_corridor_tile(level, x, yy, false);
    proof {
        lemma_corridor_compose(c0,
            either(leg_h(x0 as int, y0 as int, tx as int), leg_v(tx as int, y0 as int, ty as int)),
            either(leg_h_flanks(x0 as int, y0 as int, tx as int), leg_v_flanks(tx as int, y0 as int, ty as int)),
            at(tx as int, ty as int), flanks_of(tx as int, ty as int, false));
        lemma_corridor_ext(c0,
            either(either(leg_h(x0 as int, y0 as int, tx as int), leg_v(tx as int, y0 as int, ty as int)), at(tx as int, ty as int)),
            either(either(leg_h_flanks(x0 as int, y0 as int, tx as int), leg_v_flanks(tx as int, y0 as int, ty as int)), flanks_of(tx as int, ty as int, false)),
            l_path(ax as int, ay as int, bx as int, by as int),
            l_flanks(ax as int, ay as int, bx as int, by as int));
    }
}

/// The grid with every tile of `region` that is `from` turned into `to`.
pub open spec fn repaint_where(cells: Seq<Seq<Tile>>, region: spec_fn(int, int) -> bool, from: Tile, to: Tile) -> Seq<Seq<Tile>> {
    Seq::new(
        cells.len(),
        |r: int| Seq::new(cells[r].len(), |c: int| if region(c, r) && cells[r][c] == from { to } else { cells[r][c] }),
    )
}

/// The tiles of a straight line at `fixed` from `lo` up to, not including, `hi`, outside the gap
/// `[gap_lo, gap_hi)`: a row, or a column when `vertical`.
pub open spec fn line_region(fixed: int, lo: int, hi: int, gap_lo: int, gap_hi: int, vertical: bool) -> spec_fn(int, int) -> bool {
    |c: int, r: int| if vertical {
        c == fixed && lo <= r < hi && !(gap_lo <= r < gap_hi)
    } else {
        r == fixed && lo <= c < hi && !(gap_lo <= c < gap_hi)
    }
}

/// Turns every `from` tile of a line (outside its gap) into `to`.
fn repaint_line(level: &mut Level, fixed: i32, lo: i32, hi: i32, gap_lo: i32, gap_hi: i32, vertical: bool, from: Tile, to: Tile)
    requires
        old(level).wf(),
        lo <= hi,
    ensures
        final(level).wf(),
        final(level).width == old(level).width,
        final(level).height == old(level).height,
        final(level).cells() == repaint_where(old(level).cells(), line_region(fixed as int, lo as int, hi as int, gap_lo as int, gap_hi as int, vertical), from, to),
{
    let ghost c0 = level.cells();
    proof {
        level.lemma_wf_dims();
        let e = repaint_where(c0, line_region(fixed as int, lo as int, lo as int, gap_lo as int, gap_hi as int, vertical), from, to);
        assert forall|r: int| 0 <= r < c0.len() implies e[r] =~= c0[r] by {}
        assert(e =~= c0);
    }
    let mut i = lo;
    while i < hi
        invariant
            level.wf(),
            level.width == old(level).width,
            level.height == old(level).height,
            grid_dims(c0, level.width as int, level.height as int),
            lo <= i <= hi,
            level.cells() == repaint_where(c0, line_region(fixed as int, lo as int, i as int, gap_lo as int, gap_hi as int, vertical), from, to),
        decreases hi - i,
    {
        let (x, y) = if vertical { (fixed, i) } else { (i, fixed) };
        let in_gap = gap_lo <= i && i < gap_hi;
        let ghost before = level.cells();
        proof { level.lemma_wf_dims(); }
        let hit = match level.get(x, y) {
            Some(t) => !in_gap && t == from,
            None => false,
        };
        if hit {
            level.set(x, y, to);
        }
        proof {
            let next = repaint_where(c0, line_region(fixed as int, lo as int, i + 1, gap_lo as int, gap_hi as int, vertical), from, to);
            assert forall|r: int| 0 <= r < c0.len() implies level.cells()[r] =~= next[r] by {
                assert forall|c: int| 0 <= c < c0[r].len() implies level.cells()[r][c] == next[r][c] by {
                    if c == x && r == y {
                        assert(before[r][c] == c0[r][c]);
                    }
                }
            }
            assert(level.cells() =~= next);
        }
        i = i + 1;
    }
}

/// Lays conduit along the horizontal leg of the corridor from `(ax, ay)` toward `bx`: its deck
/// plating becomes conduit.
pub fn stamp_conduit(level: &mut Level, ax: usize, ay: usize, bx: usize, by: usize)
    requires
        old(level).wf(),
        ax < 0x7fff_fff0,
        ay < 0x7fff_fff0,
        bx < 0x7fff_fff0,
    ensures
        final(level).wf(),
        final(level).width == old(level).width,
        final(level).height == old(level).height,
        final(level).cells() == repaint_where(old(level).cells(), leg_h(ax as int, ay as int, bx as int), Tile::DeckPlate, Tile::Conduit),
{
    let x = ax as i32;
    let y = ay as i32;
    let tx = bx as i32;
    let (lo, hi) = if x <= tx { (x, tx) } else { (tx + 1, x + 1) };
    let ghost c0 = level.cells();
    repaint_line(level, y, lo, hi, 0, 0, false, Tile::DeckPlate, Tile::Conduit);
    proof {
        let a = level.cells();
        let b = repaint_where(c0, leg_h(ax as int, ay as int, bx as int), Tile::DeckPlate, Tile::Conduit);
        assert forall|r: int| 0 <= r < c0.len() implies a[r] =~= b[r] by {}
        assert(a =~= b);
    }
}

/// The room is left as it was, or gets its spine wall.
pub open spec fn spine_ok(before: Seq<Seq<Tile>>, after: Seq<Seq<Tile>>, inner: Rect) -> bool {
    after == before || spine_placed(before, after, inner)
}

/// The spine wall is in place across the middle of the room's interior: a row (the room wider
/// than seven) or a column (taller than seven), with a three-tile passage at a random place;
/// only floor becomes wall.
pub open spec fn spine_placed(before: Seq<Seq<Tile>>, after: Seq<Seq<Tile>>, inner: Rect) -> bool {
    ||| (inner.w > 7 && exists|g: int| inner.x + 2 <= g < inner.x + inner.w - 5
            && after == #[trigger] repaint_where(before, line_region(inner.y + inner.h / 2, inner.x + 1, inner.x + inner.w, g, g + 3, false), Tile::StationFloor, Tile::StationWall))
    ||| (inner.h > 7 && exists|g: int| inner.y + 2 <= g < inner.y + inner.h - 5
            && after == #[trigger] repaint_where(before, line_region(inner.x + inner.w / 2, inner.y + 1, inner.y + inner.h, g, g + 3, true), Tile::StationFloor, Tile::StationWall))
}

/// The grid after a spine wall for the draws `horizontal` and `gap` (the passage's offset from
/// the interior's edge): a row when `horizontal` and the interior is wider than seven, a column
/// when not and it is taller than seven, else nothing; only floor becomes wall.
pub open spec fn spine_with(before: Seq<Seq<Tile>>, inner: Rect, horizontal: bool, gap: int) -> Seq<Seq<Tile>> {
    if horizontal && inner.w > 7 {
        let g = inner.x + gap;
        repaint_where(before, line_region(inner.y + inner.h / 2, inner.x + 1, inner.x + inner.w, g, g + 3, false), Tile::StationFloor, Tile::StationWall)
    } else if !horizontal && inner.h > 7 {
        let g = inner.y + gap;
        repaint_where(before, line_region(inner.x + inner.w / 2, inner.y + 1, inner.y + inner.h, g, g + 3, true), Tile::StationFloor, Tile::StationWall)
    } else {
        before
    }
}

/// The gap offsets a spine wall can draw: from two up to, not including, five short of the side.
pub open spec fn gap_in_range(inner: Rect, horizontal: bool, gap: int) -> bool {
    2 <= gap && gap < (if horizontal { inner.w as int } else { inner.h as int }) - 5
}

/// A spine wall for the given draws: see `spine_with`.
pub fn add_spine_wall_with(level: &mut Level, inner: &Rect, horizontal: bool, gap: usize)
    requires
        old(level).wf(),
        inner.x + inner.w < 0x7fff_fff0,
        inner.y + inner.h < 0x7fff_fff0,
        horizontal ==> inner.x + gap + 3 < 0x7fff_fff0,
        !horizontal ==> inner.y + gap + 3 < 0x7fff_fff0,
    ensures
        final(level).wf(),
        final(level).width == old(level).width,
        final(level).height == old(level).height,
        final(level).cells() == spine_with(old(level).cells(), *inner, horizontal, gap as int),
{
    if horizontal && inner.w > 7 {
        let wy = (inner.y + inner.h / 2) as i32;
        let gap_x = inner.x + gap;
        let wall_start = (inner.x + 1) as i32;
        let wall_end = (inner.x + inner.w - 1) as i32;
        repaint_line(level, wy, wall_start, wall_end + 1, gap_x as i32, (gap_x + 3) as i32, false, Tile::StationFloor, Tile::StationWall);
    } else if !horizontal && inner.h > 7 {
        let wx = (inner.x + inner.w / 2) as i32;
        let gap_y = inner.y + gap;
        let wall_start = (inner.y + 1) as i32;
        let wall_end = (inner.y + inner.h - 1) as i32;
        repaint_line(level, wx, wall_start, wall_end + 1, gap_y as i32, (gap_y + 3) as i32, true, Tile::StationFloor, Tile::StationWall);
    }
}

/// A partial wall through the room's centre with a doorway-wide gap; it stops short of the edges
/// so it never seals off a corridor entrance.
pub fn add_spine_wall(level: &mut Level, inner: &Rect, rng: &mut SmallRng)
    requires
        old(level).wf(),
        inner.x + inner.w < 0x7fff_fff0,
        inner.y + inner.h < 0x7fff_fff0,
    ensures
        final(level).wf(),
        final(level).width == old(level).width,
        final(level).height == old(level).height,
        spine_ok(old(level).cells(), final(level).cells(), *inner),
        !(inner.w > 7) && !(inner.h > 7) ==> final(level).cells() == old(level).cells(),
        inner.w > 7 && inner.h > 7 ==> spine_placed(old(level).cells(), final(level).cells(), *inner),
        exists|horizontal: bool, gap: int| #[trigger] spine_with(old(level).cells(), *inner, horizontal, gap) == final(level).cells()
            && (spine_with(old(level).cells(), *inner, horizontal, gap) != old(level).cells() ==> gap_in_range(*inner, horizontal, gap)),
{
    let ghost c0 = level.cells();
    let horizontal = small_ratio(rng, 1, 2);
    let gap: usize = 3;
    if horizontal && inner.w > gap + 4 {
        let g = small_range_usize(rng, 2, inner.w - (gap + 2));
        add_spine_wall_with(level, inner, true, g);
        assert(spine_with(c0, *inner, true, g as int) == level.cells());
        assert(spine_placed(c0, level.cells(), *inner));
    } else if !horizontal && inner.h > gap + 4 {
        let g = small_range_usize(rng, 2, inner.h - (gap + 2));
        add_spine_wall_with(level, inner, false, g);
        assert(spine_with(c0, *inner, false, g as int) == level.cells());
        assert(spine_placed(c0, level.cells(), *inner));
    } else {
        assert(spine_with(c0, *inner, horizontal, 0) == c0);
    }
}

/// Large rooms (an interior of at least eight by eight) get a spine wall.
pub fn add_internal_walls(level: &mut Level, room: &Rect, rng: &mut SmallRng)
    requires
        old(level).wf(),
        rect_small(*room),
        room.x + room.w < 0x7fff_fff0,
        room.y + room.h < 0x7fff_fff0,
    ensures
        final(level).wf(),
        final(level).width == old(level).width,
        final(level).height == old(level).height,
        spine_ok(old(level).cells(), final(level).cells(), spec_inner(*room)),
        !(spec_inner(*room).w >= 8 && spec_inner(*room).h >= 8) ==> final(level).cells() == old(level).cells(),
        spec_inner(*room).w >= 8 && spec_inner(*room).h >= 8 ==> spine_placed(old(level).cells(), final(level).cells(), spec_inner(*room)),
{
    let inner = room.inner();
    if inner.w >= 8 && inner.h >= 8 {
        add_spine_wall(level, &inner, rng);
    }
}

/// The tile at `(c, r)` of a `w` by `h` grid is `t`.
pub open spec fn tile_is(cells: Seq<Seq<Tile>>, w: int, h: int, c: int, r: int, t: Tile) -> bool {
    0 <= c < w && 0 <= r < h && cells[r][c] == t
}

/// One of the four neighbours of `(c, r)` is vacuum.
pub open spec fn vacuum_beside(cells: Seq<Seq<Tile>>, w: int, h: int, c: int, r: int) -> bool {
    tile_is(cells, w, h, c - 1, r, Tile::Vacuum) || tile_is(cells, w, h, c + 1, r, Tile::Vacuum)
        || tile_is(cells, w, h, c, r - 1, Tile::Vacuum) || tile_is(cells, w, h, c, r + 1, Tile::Vacuum)
}

pub open spec fn is_floorish(cells: Seq<Seq<Tile>>, w: int, h: int, c: int, r: int) -> bool {
    tile_is(cells, w, h, c, r, Tile::StationFloor) || tile_is(cells, w, h, c, r, Tile::DeckPlate)
}

/// One of the four neighbours of `(c, r)` is floor or deck plating.
pub open spec fn floor_beside(cells: Seq<Seq<Tile>>, w: int, h: int, c: int, r: int) -> bool {
    is_floorish(cells, w, h, c - 1, r) || is_floorish(cells, w, h, c + 1, r)
        || is_floorish(cells, w, h, c, r - 1) || is_floorish(cells, w, h, c, r + 1)
}

/// `after` is `before` with some station walls in the `size` by `size` corner turned into
/// windows, each facing vacuum on one side and floor on another.
pub open spec fn windows_ok(before: Seq<Seq<Tile>>, after: Seq<Seq<Tile>>, w: int, h: int, size: int) -> bool {
    &&& grid_dims(after, w, h)
    &&& forall|c: int, r: int| 0 <= c < w && 0 <= r < h ==> {
        ||| #[trigger] after[r][c] == before[r][c]
        ||| (c < size && r < size && before[r][c] == Tile::StationWall && after[r][c] == Tile::Window
                && vacuum_beside(before, w, h, c, r) && floor_beside(before, w, h, c, r))
    }
}

/// Whether the tile at `(x, y)` is `t`.
fn level_has(level: &Level, x: i32, y: i32, t: Tile) -> (b: bool)
    requires
        level.wf(),
    ensures
        b == tile_is(level.cells(), level.width as int, level.height as int, x as int, y as int, t),
{
    proof { level.lemma_wf_dims(); }
    match level.get(x, y) {
        Some(u) => u == t,
        None => false,
    }
}

/// The station wall at `(c, r)` faces vacuum on one side and floor on another.
pub open spec fn window_site(cells: Seq<Seq<Tile>>, w: int, h: int, c: int, r: int) -> bool {
    tile_is(cells, w, h, c, r, Tile::StationWall) && vacuum_beside(cells, w, h, c, r) && floor_beside(cells, w, h, c, r)
}

fn is_window_site(level: &Level, x: i32, y: i32) -> (b: bool)
    requires
        level.wf(),
        i32::MIN < x < i32::MAX,
        i32::MIN < y < i32::MAX,
    ensures
        b == window_site(level.cells(), level.width as int, level.height as int, x as int, y as int),
{
    level_has(level, x, y, Tile::StationWall)
        && (level_has(level, x - 1, y, Tile::Vacuum) || level_has(level, x + 1, y, Tile::Vacuum)
            || level_has(level, x, y - 1, Tile::Vacuum) || level_has(level, x, y + 1, Tile::Vacuum))
        && (level_has(level, x - 1, y, Tile::StationFloor) || level_has(level, x - 1, y, Tile::DeckPlate)
            || level_has(level, x + 1, y, Tile::StationFloor) || level_has(level, x + 1, y, Tile::DeckPlate)
            || level_has(level, x, y - 1, Tile::StationFloor) || level_has(level, x, y - 1, Tile::DeckPlate)
            || level_has(level, x, y + 1, Tile::StationFloor) || level_has(level, x, y + 1, Tile::DeckPlate))
}

/// The tiles `chosen` lists.
pub open spec fn listed(chosen: Seq<(i32, i32)>) -> spec_fn(int, int) -> bool {
    |c: int, r: int| chosen.contains((c as i32, r as i32)) && i32::MIN <= c <= i32::MAX && i32::MIN <= r <= i32::MAX
}

/// Turns the listed tiles into windows.
pub fn set_windows(level: &mut Level, chosen: &Vec<(i32, i32)>)
    requires
        old(level).wf(),
    ensures
        final(level).wf(),
        final(level).width == old(level).width,
        final(level).height == old(level).height,
        final(level).cells() == crate::level::paint(old(level).cells(), listed(chosen@), Tile::Window),
{
    let ghost c0 = level.cells();
    let ghost w = level.width as int;
    let ghost h = level.height as int;
    proof {
        level.lemma_wf_dims();
        assert(chosen@.take(0) =~= Seq::<(i32, i32)>::empty());
        assert forall|c: int, r: int| #[trigger] listed(chosen@.take(0))(c, r) == false by {}
        crate::level::lemma_paint_ext(c0, listed(chosen@.take(0)), |c: int, r: int| false, Tile::Window);
        crate::level::lemma_paint_none(c0, w, h, |c: int, r: int| false, Tile::Window);
    }
    let mut i: usize = 0;
    while i < chosen.len()
        invariant
            level.wf(),
            level.width == w,
            level.height == h,
            grid_dims(c0, w, h),
            i <= chosen@.len(),
            level.cells() == crate::level::paint(c0, listed(chosen@.take(i as int)), Tile::Window),
        decreases chosen@.len() - i,
    {
        let (x, y) = chosen[i];
        level.set(x, y, Tile::Window);
        proof {
            let p = listed(chosen@.take(i as int));
            let q = listed(chosen@.take(i + 1));
            crate::level::lemma_paint_set(c0, w, h, p, x as int, y as int, Tile::Window);
            assert(chosen@.take(i + 1) =~= chosen@.take(i as int).push((x, y)));
            assert forall|c: int, r: int| (#[trigger] p(c, r) || (c == x && r == y)) == q(c, r) by {
                if q(c, r) && !(c == x && r == y) {
                    let k = choose|k: int| 0 <= k < chosen@.take(i + 1).len() && #[trigger] chosen@.take(i + 1)[k] == (c as i32, r as i32);
                    if k == i {
                        assert(c as i32 == x && r as i32 == y);
                    } else {
                        assert(chosen@.take(i as int)[k] == (c as i32, r as i32));
                    }
                }
                if p(c, r) {
                    let k = choose|k: int| 0 <= k < chosen@.take(i as int).len() && #[trigger] chosen@.take(i as int)[k] == (c as i32, r as i32);
                    assert(chosen@.take(i + 1)[k] == (c as i32, r as i32));
                }
                if c == x && r == y {
                    assert(chosen@.take(i + 1)[i as int] == (c as i32, r as i32));
                }
            }
            crate::level::lemma_paint_ext(c0, |c: int, r: int| p(c, r) || (c == x && r == y), q, Tile::Window);
        }
        i = i + 1;
    }
    assert(chosen@.take(chosen@.len() as int) =~= chosen@);
}

/// The window sites of row `y` among columns `0` up to, not including, `x`, left to right.
pub open spec fn sites_row(cells: Seq<Seq<Tile>>, w: int, h: int, y: int, x: int) -> Seq<(i32, i32)>
    decreases x,
{
    if x <= 0 {
        Seq::empty()
    } else {
        let prev = sites_row(cells, w, h, y, x - 1);
        if window_site(cells, w, h, x - 1, y) { prev.push(((x - 1) as i32, y as i32)) } else { prev }
    }
}

/// The window sites of rows `0` up to, not including, `y` of the `size` by `size` corner, in
/// row order.
pub open spec fn sites_rows(cells: Seq<Seq<Tile>>, w: int, h: int, size: int, y: int) -> Seq<(i32, i32)>
    decreases y,
{
    if y <= 0 { Seq::empty() } else { sites_rows(cells, w, h, size, y - 1) + sites_row(cells, w, h, y - 1, size) }
}

/// The sites whose draw (the draw of the same number) is true; missing draws are false.
pub open spec fn pick_by(sites: Seq<(i32, i32)>, draws: Seq<bool>) -> Seq<(i32, i32)>
    decreases sites.len(),
{
    if sites.len() == 0 {
        Seq::empty()
    } else {
        let prev = pick_by(sites.drop_last(), draws);
        let k = sites.len() - 1;
        if k < draws.len() && draws[k] { prev.push(sites.last()) } else { prev }
    }
}

/// The grid once the window sites of the `size` by `size` corner whose draws are true have
/// become windows.
pub open spec fn windows_with(cells: Seq<Seq<Tile>>, w: int, h: int, size: int, draws: Seq<bool>) -> Seq<Seq<Tile>> {
    crate::level::paint(cells, listed(pick_by(sites_rows(cells, w, h, size, size), draws)), Tile::Window)
}

proof fn lemma_pick_by_extend(sites: Seq<(i32, i32)>, d1: Seq<bool>, d2: Seq<bool>)
    requires
        sites.len() <= d1.len() <= d2.len(),
        forall|i: int| 0 <= i < d1.len() ==> d1[i] == d2[i],
    ensures
        pick_by(sites, d1) == pick_by(sites, d2),
    decreases sites.len(),
{
    if sites.len() > 0 {
        lemma_pick_by_extend(sites.drop_last(), d1, d2);
    }
}

/// The window sites and the draws for them, scanned row by row; returns the sites picked.
fn pick_window_sites(level: &Level, size: usize, draws: &Vec<bool>) -> (chosen: Vec<(i32, i32)>)
    requires
        level.wf(),
        size < 0x7fff_fff0,
    ensures
        chosen@ == pick_by(sites_rows(level.cells(), level.width as int, level.height as int, size as int, size as int), draws@),
{
    let ghost c0 = level.cells();
    let ghost w = level.width as int;
    let ghost h = level.height as int;
    let max = size as i32;
    let mut chosen: Vec<(i32, i32)> = Vec::new();
    let mut k: usize = 0;
    let mut y: i32 = 0;
    while y < max
        invariant
            level.wf(),
            level.cells() == c0,
            w == level.width,
            h == level.height,
            max == size,
            0 <= y <= max,
            k == if sites_rows(c0, w, h, size as int, y as int).len() < draws@.len() { sites_rows(c0, w, h, size as int, y as int).len() } else { draws@.len() as nat },
            chosen@ == pick_by(sites_rows(c0, w, h, size as int, y as int), draws@),
        decreases max - y,
    {
        let ghost done = sites_rows(c0, w, h, size as int, y as int);
        assert(done + sites_row(c0, w, h, y as int, 0) =~= done);
        let mut x: i32 = 0;
        while x < max
            invariant
                level.wf(),
                level.cells() == c0,
                w == level.width,
                h == level.height,
                max == size,
                0 <= y < max,
                0 <= x <= max,
                done == sites_rows(c0, w, h, size as int, y as int),
                k == if (done + sites_row(c0, w, h, y as int, x as int)).len() < draws@.len() { (done + sites_row(c0, w, h, y as int, x as int)).len() } else { draws@.len() as nat },
                chosen@ == pick_by(done + sites_row(c0, w, h, y as int, x as int), draws@),
            decreases max - x,
        {
            let ghost before = done + sites_row(c0, w, h, y as int, x as int);
            if is_window_site(level, x, y) {
                let pick = k < draws.len() && draws[k];
                if pick {
                    chosen.push((x, y));
                }
                if k < draws.len() {
                    k = k + 1;
                }
                proof {
                    let after = done + sites_row(c0, w, h, y as int, x + 1);
                    assert(after =~= before.push((x, y)));
                    assert(after.drop_last() =~= before);
                }
            } else {
                proof {
                    assert(done + sites_row(c0, w, h, y as int, x + 1) =~= before);
                }
            }
            x = x + 1;
        }
        proof {
            assert(sites_rows(c0, w, h, size as int, y + 1) =~= done + sites_row(c0, w, h, y as int, size as int));
        }
        y = y + 1;
    }
    chosen
}

/// Turns the window sites of the `size` by `size` corner (station walls facing both vacuum and
/// a floor, taken row by row) into windows where the draw of the same number is true.
pub fn place_windows_with(level: &mut Level, size: usize, draws: &Vec<bool>)
    requires
        old(level).wf(),
        size < 0x7fff_fff0,
    ensures
        final(level).wf(),
        final(level).width == old(level).width,
        final(level).height == old(level).height,
        final(level).cells() == windows_with(old(level).cells(), old(level).width as int, old(level).height as int, size as int, draws@),
{
    let chosen = pick_window_sites(level, size, draws);
    set_windows(level, &chosen);
}

/// Turns some of the station walls into windows: those facing both vacuum and a floor, each
/// with a chance of nine in twenty.
pub fn place_windows(level: &mut Level, size: usize, rng: &mut SmallRng)
    requires
        old(level).wf(),
        size < 0x7fff_fff0,
    ensures
        final(level).wf(),
        final(level).width == old(level).width,
        final(level).height == old(level).height,
        windows_ok(old(level).cells(), final(level).cells(), old(level).width as int, old(level).height as int, size as int),
        exists|draws: Seq<bool>| #[trigger] windows_with(old(level).cells(), old(level).width as int, old(level).height as int, size as int, draws)
            == final(level).cells(),
{
    let ghost c0 = level.cells();
    let ghost w = level.width as int;
    let ghost h = level.height as int;
    proof { level.lemma_wf_dims(); }
    let max = size as i32;
    let mut chosen: Vec<(i32, i32)> = Vec::new();
    let ghost mut drawn: Seq<bool> = Seq::empty();
    let mut y: i32 = 0;
    while y < max
        invariant
            level.wf(),
            level.cells() == c0,
            w == level.width,
            h == level.height,
            max == size,
            0 <= y <= max,
            forall|k: int| 0 <= k < chosen@.len() ==> 0 <= (#[trigger] chosen@[k]).0 < size && 0 <= chosen@[k].1 < size
                && window_site(c0, w, h, chosen@[k].0 as int, chosen@[k].1 as int),
            drawn.len() == sites_rows(c0, w, h, size as int, y as int).len(),
            chosen@ == pick_by(sites_rows(c0, w, h, size as int, y as int), drawn),
        decreases max - y,
    {
        let ghost done = sites_rows(c0, w, h, size as int, y as int);
        assert(done + sites_row(c0, w, h, y as int, 0) =~= done);
        let mut x: i32 = 0;
        while x < max
            invariant
                level.wf(),
                level.cells() == c0,
                w == level.width,
                h == level.height,
                max == size,
                0 <= y < max,
                0 <= x <= max,
                forall|k: int| 0 <= k < chosen@.len() ==> 0 <= (#[trigger] chosen@[k]).0 < size && 0 <= chosen@[k].1 < size
                    && window_site(c0, w, h, chosen@[k].0 as int, chosen@[k].1 as int),
                done == sites_rows(c0, w, h, size as int, y as int),
                drawn.len() == (done + sites_row(c0, w, h, y as int, x as int)).len(),
                chosen@ == pick_by(done + sites_row(c0, w, h, y as int, x as int), drawn),
            decreases max - x,
        {
            let ghost before = done + sites_row(c0, w, h, y as int, x as int);
            if is_window_site(level, x, y) {
                let d = small_ratio(rng, 9, 20);
                if d {
                    chosen.push((x, y));
                }
                proof {
                    let d2 = drawn.push(d);
                    lemma_pick_by_extend(before, drawn, d2);
                    let after = done + sites_row(c0, w, h, y as int, x + 1);
                    assert(after =~= before.push((x, y)));
                    assert(after.drop_last() =~= before);
                    drawn = d2;
                }
            } else {
                proof {
                    assert(done + sites_row(c0, w, h, y as int, x + 1) =~= before);
                }
            }
            x = x + 1;
        }
        proof {
            assert(sites_rows(c0, w, h, size as int, y + 1) =~= done + sites_row(c0, w, h, y as int, size as int));
        }
        y = y + 1;
    }
    set_windows(level, &chosen);
    assert(windows_with(c0, w, h, size as int, drawn) == level.cells());
    proof {
        level.lemma_wf_dims();
        let now = level.cells();
        assert forall|c: int, r: int| 0 <= c < w && 0 <= r < h implies {
            ||| #[trigger] now[r][c] == c0[r][c]
            ||| (c < size && r < size && c0[r][c] == Tile::StationWall && now[r][c] == Tile::Window
                    && vacuum_beside(c0, w, h, c, r) && floor_beside(c0, w, h, c, r))
        } by {
            if listed(chosen@)(c, r) {
                let k = choose|k: int| 0 <= k < chosen@.len() && #[trigger] chosen@[k] == (c as i32, r as i32);
                assert(window_site(c0, w, h, chosen@[k].0 as int, chosen@[k].1 as int));
            }
        }
    }
}

/// `(c, r)` is on the border of the room `(rx, ry, rw, rh)` and faces deck plating just outside
/// it in `cells`.
pub open spec fn door_site(cells: Seq<Seq<Tile>>, w: int, h: int, rx: int, ry: int, rw: int, rh: int, c: int, r: int) -> bool {
    &&& rx <= c < rx + rw && ry <= r < ry + rh
    &&& tile_is(cells, w, h, c, r, Tile::StationWall)
    &&& {
        ||| (r == ry && tile_is(cells, w, h, c, ry - 1, Tile::DeckPlate))
        ||| (r == ry + rh - 1 && tile_is(cells, w, h, c, ry + rh, Tile::DeckPlate))
        ||| (c == rx && tile_is(cells, w, h, rx - 1, r, Tile::DeckPlate))
        ||| (c == rx + rw - 1 && tile_is(cells, w, h, rx + rw, r, Tile::DeckPlate))
    }
}

/// `after` is `before` with a floor tile at each of the distinct door sites `doors`.
pub open spec fn doors_ok(before: Seq<Seq<Tile>>, after: Seq<Seq<Tile>>, w: int, h: int, rx: int, ry: int, rw: int, rh: int, doors: Seq<(i32, i32)>) -> bool {
    &&& grid_dims(after, w, h)
    &&& forall|k: int| 0 <= k < doors.len() ==> door_site(before, w, h, rx, ry, rw, rh, #[trigger] doors[k].0 as int, doors[k].1 as int)
    &&& forall|k: int, j: int| 0 <= k < j < doors.len() ==> #[trigger] doors[k] != #[trigger] doors[j]
    &&& forall|c: int, r: int| 0 <= c < w && 0 <= r < h ==> #[trigger] after[r][c] == if doors.contains((c as i32, r as i32)) {
        Tile::StationFloor
    } else {
        before[r][c]
    }
}

/// Opens a door at `(x, y)`, a wall of the room facing deck plating at `(ox, oy)`, when `open`:
/// the wall becomes floor and the door is listed.
pub fn open_door_if(level: &mut Level, x: i32, y: i32, ox: i32, oy: i32, open: bool, doors: &mut Vec<(i32, i32)>,
    Ghost(c0): Ghost<Seq<Seq<Tile>>>, rx: i32, ry: i32, rw: i32, rh: i32)
    requires
        old(level).wf(),
        old(level).width <= i32::MAX,
        old(level).height <= i32::MAX,
        grid_dims(c0, old(level).width as int, old(level).height as int),
        doors_ok(c0, old(level).cells(), old(level).width as int, old(level).height as int, rx as int, ry as int, rw as int, rh as int, old(doors)@),
        rx <= x < rx + rw,
        ry <= y < ry + rh,
        !(rx <= ox < rx + rw && ry <= oy < ry + rh),
        (y == ry && ox == x && oy == ry - 1) || (y == ry + rh - 1 && ox == x && oy == ry + rh)
            || (x == rx && ox == rx - 1 && oy == y) || (x == rx + rw - 1 && ox == rx + rw && oy == y),
        tile_is(old(level).cells(), old(level).width as int, old(level).height as int, x as int, y as int, Tile::StationWall),
        tile_is(old(level).cells(), old(level).width as int, old(level).height as int, ox as int, oy as int, Tile::DeckPlate),
    ensures
        open ==> final(level).cells() == old(level).cells_after_set(x as int, y as int, Tile::StationFloor)
            && final(doors)@ == old(doors)@.push((x, y)),
        !open ==> *final(level) == *old(level) && final(doors)@ == old(doors)@,
        final(level).wf(),
        final(level).width == old(level).width,
        final(level).height == old(level).height,
        doors_ok(c0, final(level).cells(), old(level).width as int, old(level).height as int, rx as int, ry as int, rw as int, rh as int, final(doors)@),
{
    let ghost w = level.width as int;
    let ghost h = level.height as int;
    let ghost cur = level.cells();
    proof { level.lemma_wf_dims(); }
    if open {
        proof {
            assert(!old(doors)@.contains((ox, oy))) by {
                if old(doors)@.contains((ox, oy)) {
                    let k = choose|k: int| 0 <= k < old(doors)@.len() && old(doors)@[k] == (ox, oy);
                    assert(door_site(c0, w, h, rx as int, ry as int, rw as int, rh as int, old(doors)@[k].0 as int, old(doors)@[k].1 as int));
                }
            }
            assert(cur[oy as int][ox as int] == c0[oy as int][ox as int]);
            assert(!old(doors)@.contains((x, y)));
            assert(cur[y as int][x as int] == c0[y as int][x as int]);
        }
        level.set(x, y, Tile::StationFloor);
        doors.push((x, y));
        proof {
            let now = level.cells();
            assert(door_site(c0, w, h, rx as int, ry as int, rw as int, rh as int, x as int, y as int));
            assert forall|c: int, r: int| 0 <= c < w && 0 <= r < h implies #[trigger] now[r][c] == if doors@.contains((c as i32, r as i32)) {
                Tile::StationFloor
            } else {
                c0[r][c]
            } by {
                if c == x && r == y {
                    assert(doors@[doors@.len() - 1] == (x, y));
                } else {
                    assert(now[r][c] == cur[r][c]);
                    if old(doors)@.contains((c as i32, r as i32)) {
                        let k = choose|k: int| 0 <= k < old(doors)@.len() && old(doors)@[k] == (c as i32, r as i32);
                        assert(doors@[k] == (c as i32, r as i32));
                    }
                    if doors@.contains((c as i32, r as i32)) {
                        let k = choose|k: int| 0 <= k < doors@.len() && doors@[k] == (c as i32, r as i32);
                        assert(c as i32 == c && r as i32 == r);
                        assert(k < old(doors)@.len());
                        assert(old(doors)@[k] == (c as i32, r as i32));
                    }
                }
            }
            assert forall|k: int, j: int| 0 <= k < j < doors@.len() implies #[trigger] doors@[k] != #[trigger] doors@[j] by {
                if j == doors@.len() - 1 {
                    assert(old(doors)@[k] == doors@[k]);
                    assert(old(doors)@.contains(doors@[k]));
                }
            }
            assert forall|k: int| 0 <= k < doors@.len() implies door_site(c0, w, h, rx as int, ry as int, rw as int, rh as int, #[trigger] doors@[k].0 as int, doors@[k].1 as int) by {
                if k < old(doors)@.len() {
                    assert(doors@[k] == old(doors)@[k]);
                }
            }
        }
    }
}

/// Opens a door at `(x, y)` when it is a wall of the room facing deck plating at `(ox, oy)`,
/// with a chance of three in five (the draw is made only at such a site).
fn try_door(level: &mut Level, x: i32, y: i32, ox: i32, oy: i32, rng: &mut SmallRng, doors: &mut Vec<(i32, i32)>,
    Ghost(c0): Ghost<Seq<Seq<Tile>>>, rx: i32, ry: i32, rw: i32, rh: i32, Ghost(before): Ghost<Seq<bool>>) -> (drawn: Option<bool>)
    requires
        old(level).wf(),
        old(level).width <= i32::MAX,
        old(level).height <= i32::MAX,
        grid_dims(c0, old(level).width as int, old(level).height as int),
        doors_ok(c0, old(level).cells(), old(level).width as int, old(level).height as int, rx as int, ry as int, rw as int, rh as int, old(doors)@),
        rx <= x < rx + rw,
        ry <= y < ry + rh,
        !(rx <= ox < rx + rw && ry <= oy < ry + rh),
        (y == ry && ox == x && oy == ry - 1) || (y == ry + rh - 1 && ox == x && oy == ry + rh)
            || (x == rx && ox == rx - 1 && oy == y) || (x == rx + rw - 1 && ox == rx + rw && oy == y),
    ensures
        final(level).wf(),
        final(level).width == old(level).width,
        final(level).height == old(level).height,
        doors_ok(c0, final(level).cells(), old(level).width as int, old(level).height as int, rx as int, ry as int, rw as int, rh as int, final(doors)@),
        !(tile_is(old(level).cells(), old(level).width as int, old(level).height as int, x as int, y as int, Tile::StationWall)
            && tile_is(old(level).cells(), old(level).width as int, old(level).height as int, ox as int, oy as int, Tile::DeckPlate))
            ==> *final(level) == *old(level) && final(doors)@ == old(doors)@,
        *final(level) == *old(level) && final(doors)@ == old(doors)@
            || final(level).cells() == old(level).cells_after_set(x as int, y as int, Tile::StationFloor)
            && final(doors)@ == old(doors)@.push((x, y)),
        ({
            let after = match drawn { Some(d) => before.push(d), None => before };
            door_step((old(level).cells(), old(doors)@, before.len() as int), old(level).width as int, old(level).height as int,
                (x as int, y as int, ox as int, oy as int), after) == (final(level).cells(), final(doors)@, after.len() as int)
        }),
{
    if level_has(level, x, y, Tile::StationWall) && level_has(level, ox, oy, Tile::DeckPlate) {
        let open = small_ratio(rng, 3, 5);
        open_door_if(level, x, y, ox, oy, open, doors, Ghost(c0), rx, ry, rw, rh);
        Some(open)
    } else {
        None
    }
}

/// Opens a door at `(x, y)` when it is a wall of the room facing deck plating at `(ox, oy)` and
/// the next of `draws` (number `u`; missing ones are false) is true; returns the number of draws
/// used after it.
fn door_with(level: &mut Level, x: i32, y: i32, ox: i32, oy: i32, draws: &Vec<bool>, u: usize, doors: &mut Vec<(i32, i32)>,
    Ghost(c0): Ghost<Seq<Seq<Tile>>>, rx: i32, ry: i32, rw: i32, rh: i32, Ghost(su): Ghost<int>) -> (next: usize)
    requires
        old(level).wf(),
        old(level).width <= i32::MAX,
        old(level).height <= i32::MAX,
        grid_dims(c0, old(level).width as int, old(level).height as int),
        doors_ok(c0, old(level).cells(), old(level).width as int, old(level).height as int, rx as int, ry as int, rw as int, rh as int, old(doors)@),
        rx <= x < rx + rw,
        ry <= y < ry + rh,
        !(rx <= ox < rx + rw && ry <= oy < ry + rh),
        (y == ry && ox == x && oy == ry - 1) || (y == ry + rh - 1 && ox == x && oy == ry + rh)
            || (x == rx && ox == rx - 1 && oy == y) || (x == rx + rw - 1 && ox == rx + rw && oy == y),
        su >= 0,
        u == if su < draws@.len() { su } else { draws@.len() as int },
    ensures
        final(level).wf(),
        final(level).width == old(level).width,
        final(level).height == old(level).height,
        doors_ok(c0, final(level).cells(), old(level).width as int, old(level).height as int, rx as int, ry as int, rw as int, rh as int, final(doors)@),
        ({
            let n = door_step((old(level).cells(), old(doors)@, su), old(level).width as int, old(level).height as int,
                (x as int, y as int, ox as int, oy as int), draws@);
            &&& n.0 == final(level).cells()
            &&& n.1 == final(doors)@
            &&& next == if n.2 < draws@.len() { n.2 } else { draws@.len() as int }
        }),
{
    if level_has(level, x, y, Tile::StationWall) && level_has(level, ox, oy, Tile::DeckPlate) {
        let open = u < draws.len() && draws[u];
        open_door_if(level, x, y, ox, oy, open, doors, Ghost(c0), rx, ry, rw, rh);
        if u < draws.len() { u + 1 } else { u }
    } else {
        u
    }
}

/// The door candidates of the room `(rx, ry, rw, rh)` in the order they are tried: for each
/// column, the top wall then the bottom one, each with the tile outside it; then for each row,
/// the left wall then the right one.
pub open spec fn door_cands(rx: int, ry: int, rw: int, rh: int) -> Seq<(int, int, int, int)> {
    Seq::new((2 * rw) as nat, |i: int| if i % 2 == 0 { (rx + i / 2, ry, rx + i / 2, ry - 1) } else { (rx + i / 2, ry + rh - 1, rx + i / 2, ry + rh) })
        + Seq::new((2 * rh) as nat, |i: int| if i % 2 == 0 { (rx, ry + i / 2, rx - 1, ry + i / 2) } else { (rx + rw - 1, ry + i / 2, rx + rw, ry + i / 2) })
}

/// Trying one door candidate `(x, y, ox, oy)`: a wall facing deck plating takes the next draw
/// (`s.2` used so far; missing ones are false) and becomes a listed floor tile when it is true.
pub open spec fn door_step(s: (Seq<Seq<Tile>>, Seq<(i32, i32)>, int), w: int, h: int, cand: (int, int, int, int), draws: Seq<bool>)
    -> (Seq<Seq<Tile>>, Seq<(i32, i32)>, int) {
    let (cells, doors, u) = s;
    if tile_is(cells, w, h, cand.0, cand.1, Tile::StationWall) && tile_is(cells, w, h, cand.2, cand.3, Tile::DeckPlate) {
        if 0 <= u < draws.len() && draws[u] {
            (set_cells(cells, w, h, cand.0, cand.1, Tile::StationFloor), doors.push((cand.0 as i32, cand.1 as i32)), u + 1)
        } else {
            (cells, doors, u + 1)
        }
    } else {
        s
    }
}

/// Trying the candidates in order.
pub open spec fn door_scan(s: (Seq<Seq<Tile>>, Seq<(i32, i32)>, int), w: int, h: int, cands: Seq<(int, int, int, int)>, draws: Seq<bool>)
    -> (Seq<Seq<Tile>>, Seq<(i32, i32)>, int)
    decreases cands.len(),
{
    if cands.len() == 0 { s } else { door_step(door_scan(s, w, h, cands.drop_last(), draws), w, h, cands.last(), draws) }
}

/// The grid, the doors opened and the draws used when the room's doors are placed with `draws`.
pub open spec fn doors_with(cells: Seq<Seq<Tile>>, w: int, h: int, room: Rect, draws: Seq<bool>) -> (Seq<Seq<Tile>>, Seq<(i32, i32)>, int) {
    door_scan((cells, Seq::empty(), 0), w, h, door_cands(room.x as int, room.y as int, room.w as int, room.h as int), draws)
}

proof fn lemma_door_scan_mono(s: (Seq<Seq<Tile>>, Seq<(i32, i32)>, int), w: int, h: int, cands: Seq<(int, int, int, int)>, draws: Seq<bool>)
    ensures
        door_scan(s, w, h, cands, draws).2 >= s.2,
    decreases cands.len(),
{
    if cands.len() > 0 {
        lemma_door_scan_mono(s, w, h, cands.drop_last(), draws);
    }
}

/// Draws past those the scan uses change nothing.
proof fn lemma_door_scan_frame(s: (Seq<Seq<Tile>>, Seq<(i32, i32)>, int), w: int, h: int, cands: Seq<(int, int, int, int)>,
    d1: Seq<bool>, d2: Seq<bool>)
    requires
        s.2 >= 0,
        d1.len() <= d2.len(),
        forall|i: int| 0 <= i < d1.len() ==> d1[i] == d2[i],
        door_scan(s, w, h, cands, d1).2 <= d1.len(),
    ensures
        door_scan(s, w, h, cands, d2) == door_scan(s, w, h, cands, d1),
    decreases cands.len(),
{
    if cands.len() > 0 {
        lemma_door_scan_mono(s, w, h, cands.drop_last(), d1);
        lemma_door_scan_frame(s, w, h, cands.drop_last(), d1, d2);
    }
}

/// The candidates of the top and bottom walls come in column order, those of the sides after.
proof fn lemma_door_cands(rx: int, ry: int, rw: int, rh: int, i: int)
    requires
        rw >= 0 && rh >= 0,
    ensures
        0 <= i < rw ==> door_cands(rx, ry, rw, rh)[2 * i] == (rx + i, ry, rx + i, ry - 1)
            && door_cands(rx, ry, rw, rh)[2 * i + 1] == (rx + i, ry + rh - 1, rx + i, ry + rh),
        0 <= i < rh ==> door_cands(rx, ry, rw, rh)[2 * rw + 2 * i] == (rx, ry + i, rx - 1, ry + i)
            && door_cands(rx, ry, rw, rh)[2 * rw + 2 * i + 1] == (rx + rw - 1, ry + i, rx + rw, ry + i),
        door_cands(rx, ry, rw, rh).len() == 2 * rw + 2 * rh,
{
    assert((2 * i) % 2 == 0 && (2 * i) / 2 == i && (2 * i + 1) % 2 == 1 && (2 * i + 1) / 2 == i);
}

/// Opens doors in the room's walls where a corridor runs alongside, each when its draw is true,
/// scanning the top and bottom walls and then the sides; returns where.
#[verifier::spinoff_prover]
pub fn place_room_doors_with(level: &mut Level, room: &Rect, draws: &Vec<bool>) -> (doors: Vec<(i32, i32)>)
    requires
        old(level).wf(),
        old(level).width <= i32::MAX,
        old(level).height <= i32::MAX,
        1 <= room.w && 1 <= room.h,
        room.x + room.w < 0x7fff_fff0,
        room.y + room.h < 0x7fff_fff0,
    ensures
        final(level).wf(),
        final(level).width == old(level).width,
        final(level).height == old(level).height,
        doors_with(old(level).cells(), old(level).width as int, old(level).height as int, *room, draws@).0 == final(level).cells(),
        doors_with(old(level).cells(), old(level).width as int, old(level).height as int, *room, draws@).1 == doors@,
{
    let ghost c0 = level.cells();
    let ghost w = level.width as int;
    let ghost h = level.height as int;
    proof { level.lemma_wf_dims(); }
    let rx = room.x as i32;
    let ry = room.y as i32;
    let rw = room.w as i32;
    let rh = room.h as i32;
    let ghost cands = door_cands(rx as int, ry as int, rw as int, rh as int);
    let ghost s0 = (c0, Seq::<(i32, i32)>::empty(), 0int);
    let mut doors: Vec<(i32, i32)> = Vec::new();
    let mut u: usize = 0;
    let ghost mut st = s0;
    proof {
        lemma_door_cands(rx as int, ry as int, rw as int, rh as int, 0);
        assert(cands.take(0) =~= Seq::<(int, int, int, int)>::empty());
        assert forall|c: int, r: int| 0 <= c < level.width && 0 <= r < level.height implies #[trigger] level.cells()[r][c] == if doors@.contains((c as i32, r as i32)) {
            Tile::StationFloor
        } else {
            c0[r][c]
        } by {}
    }
    let mut x = rx;
    while x < rx + rw
        invariant
            level.wf(),
            level.width == w && level.height == h,
            level.width <= i32::MAX,
            level.height <= i32::MAX,
            grid_dims(c0, w, h),
            rx == room.x, ry == room.y, rw == room.w, rh == room.h,
            1 <= rw && 1 <= rh,
            rx + rw < 0x7fff_fff0,
            ry + rh < 0x7fff_fff0,
            rx <= x <= rx + rw,
            cands == door_cands(rx as int, ry as int, rw as int, rh as int),
            s0 == (c0, Seq::<(i32, i32)>::empty(), 0int),
            doors_ok(c0, level.cells(), w, h, rx as int, ry as int, rw as int, rh as int, doors@),
            st == door_scan(s0, w, h, cands.take(2 * (x - rx)), draws@),
            st.0 == level.cells() && st.1 == doors@ && st.2 >= 0,
            u == if st.2 < draws@.len() { st.2 } else { draws@.len() as int },
        decreases rx + rw - x,
    {
        proof { lemma_door_cands(rx as int, ry as int, rw as int, rh as int, x - rx); }
        let ghost k = 2 * (x - rx);
        u = door_with(level, x, ry, x, ry - 1, draws, u, &mut doors, Ghost(c0), rx, ry, rw, rh, Ghost(st.2));
        proof {
            lemma_door_scan_next(s0, w, h, cands, k, draws@);
            st = door_step(st, w, h, (x as int, ry as int, x as int, ry - 1), draws@);
        }
        u = door_with(level, x, ry + rh - 1, x, ry + rh, draws, u, &mut doors, Ghost(c0), rx, ry, rw, rh, Ghost(st.2));
        proof {
            lemma_door_scan_next(s0, w, h, cands, k + 1, draws@);
            st = door_step(st, w, h, (x as int, ry + rh - 1, x as int, ry + rh), draws@);
        }
        x = x + 1;
    }
    let mut y = ry;
    while y < ry + rh
        invariant
            level.wf(),
            level.width == w && level.height == h,
            level.width <= i32::MAX,
            level.height <= i32::MAX,
            grid_dims(c0, w, h),
            rx == room.x, ry == room.y, rw == room.w, rh == room.h,
            1 <= rw && 1 <= rh,
            rx + rw < 0x7fff_fff0,
            ry + rh < 0x7fff_fff0,
            ry <= y <= ry + rh,
            cands == door_cands(rx as int, ry as int, rw as int, rh as int),
            s0 == (c0, Seq::<(i32, i32)>::empty(), 0int),
            doors_ok(c0, level.cells(), w, h, rx as int, ry as int, rw as int, rh as int, doors@),
            st == door_scan(s0, w, h, cands.take(2 * rw + 2 * (y - ry)), draws@),
            st.0 == level.cells() && st.1 == doors@ && st.2 >= 0,
            u == if st.2 < draws@.len() { st.2 } else { draws@.len() as int },
        decreases ry + rh - y,
    {
        proof { lemma_door_cands(rx as int, ry as int, rw as int, rh as int, y - ry); }
        let ghost k = 2 * rw + 2 * (y - ry);
        u = door_with(level, rx, y, rx - 1, y, draws, u, &mut doors, Ghost(c0), rx, ry, rw, rh, Ghost(st.2));
        proof {
            lemma_door_scan_next(s0, w, h, cands, k, draws@);
            st = door_step(st, w, h, (rx as int, y as int, rx - 1, y as int), draws@);
        }
        u = door_with(level, rx + rw - 1, y, rx + rw, y, draws, u, &mut doors, Ghost(c0), rx, ry, rw, rh, Ghost(st.2));
        proof {
            lemma_door_scan_next(s0, w, h, cands, k + 1, draws@);
            st = door_step(st, w, h, (rx + rw - 1, y as int, rx + rw, y as int), draws@);
        }
        y = y + 1;
    }
    proof {
        lemma_door_cands(rx as int, ry as int, rw as int, rh as int, 0);
        assert(cands.take(2 * rw + 2 * rh) =~= cands);
    }
    doors
}

/// Opens doors in the room's walls where a corridor runs alongside, each with a chance of
/// three in five, scanning the top and bottom walls and then the sides; returns where.
#[verifier::spinoff_prover]
pub fn place_room_doors(level: &mut Level, room: &Rect, rng: &mut SmallRng) -> (doors: Vec<(i32, i32)>)
    requires
        old(level).wf(),
        old(level).width <= i32::MAX,
        old(level).height <= i32::MAX,
        1 <= room.w && 1 <= room.h,
        room.x + room.w < 0x7fff_fff0,
        room.y + room.h < 0x7fff_fff0,
    ensures
        final(level).wf(),
        final(level).width == old(level).width,
        final(level).height == old(level).height,
        doors_ok(old(level).cells(), final(level).cells(), old(level).width as int, old(level).height as int,
            room.x as int, room.y as int, room.w as int, room.h as int, doors@),
        exists|draws: Seq<bool>| #[trigger] doors_with(old(level).cells(), old(level).width as int, old(level).height as int, *room, draws)
            == (final(level).cells(), doors@, draws.len() as int),
{
    let ghost c0 = level.cells();
    let ghost w = level.width as int;
    let ghost h = level.height as int;
    proof { level.lemma_wf_dims(); }
    let rx = room.x as i32;
    let ry = room.y as i32;
    let rw = room.w as i32;
    let rh = room.h as i32;
    let ghost cands = door_cands(rx as int, ry as int, rw as int, rh as int);
    let ghost s0 = (c0, Seq::<(i32, i32)>::empty(), 0int);
    let ghost mut drawn: Seq<bool> = Seq::empty();
    let mut doors: Vec<(i32, i32)> = Vec::new();
    proof {
        lemma_door_cands(rx as int, ry as int, rw as int, rh as int, 0);
        assert(cands.take(0) =~= Seq::<(int, int, int, int)>::empty());
        assert forall|c: int, r: int| 0 <= c < level.width && 0 <= r < level.height implies #[trigger] level.cells()[r][c] == if doors@.contains((c as i32, r as i32)) {
            Tile::StationFloor
        } else {
            c0[r][c]
        } by {}
    }
    let mut x = rx;
    while x < rx + rw
        invariant
            level.wf(),
            level.width == w && level.height == h,
            level.width <= i32::MAX,
            level.height <= i32::MAX,
            grid_dims(c0, w, h),
            rx == room.x, ry == room.y, rw == room.w, rh == room.h,
            1 <= rw && 1 <= rh,
            rx + rw < 0x7fff_fff0,
            ry + rh < 0x7fff_fff0,
            rx <= x <= rx + rw,
            cands == door_cands(rx as int, ry as int, rw as int, rh as int),
            s0 == (c0, Seq::<(i32, i32)>::empty(), 0int),
            doors_ok(c0, level.cells(), w, h, rx as int, ry as int, rw as int, rh as int, doors@),
            door_scan(s0, w, h, cands.take(2 * (x - rx)), drawn) == (level.cells(), doors@, drawn.len() as int),
        decreases rx + rw - x,
    {
        proof { lemma_door_cands(rx as int, ry as int, rw as int, rh as int, x - rx); }
        let ghost k = 2 * (x - rx);
        let d = try_door(level, x, ry, x, ry - 1, rng, &mut doors, Ghost(c0), rx, ry, rw, rh, Ghost(drawn));
        proof { drawn = lemma_door_advance(s0, w, h, cands, k, drawn, d); }
        let d = try_door(level, x, ry + rh - 1, x, ry + rh, rng, &mut doors, Ghost(c0), rx, ry, rw, rh, Ghost(drawn));
        proof { drawn = lemma_door_advance(s0, w, h, cands, k + 1, drawn, d); }
        x = x + 1;
    }
    let mut y = ry;
    while y < ry + rh
        invariant
            level.wf(),
            level.width == w && level.height == h,
            level.width <= i32::MAX,
            level.height <= i32::MAX,
            grid_dims(c0, w, h),
            rx == room.x, ry == room.y, rw == room.w, rh == room.h,
            1 <= rw && 1 <= rh,
            rx + rw < 0x7fff_fff0,
            ry + rh < 0x7fff_fff0,
            ry <= y <= ry + rh,
            cands == door_cands(rx as int, ry as int, rw as int, rh as int),
            s0 == (c0, Seq::<(i32, i32)>::empty(), 0int),
            doors_ok(c0, level.cells(), w, h, rx as int, ry as int, rw as int, rh as int, doors@),
            door_scan(s0, w, h, cands.take(2 * rw + 2 * (y - ry)), drawn) == (level.cells(), doors@, drawn.len() as int),
        decreases ry + rh - y,
    {
        proof { lemma_door_cands(rx as int, ry as int, rw as int, rh as int, y - ry); }
        let ghost k = 2 * rw + 2 * (y - ry);
        let d = try_door(level, rx, y, rx - 1, y, rng, &mut doors, Ghost(c0), rx, ry, rw, rh, Ghost(drawn));
        proof { drawn = lemma_door_advance(s0, w, h, cands, k, drawn, d); }
        let d = try_door(level, rx + rw - 1, y, rx + rw, y, rng, &mut doors, Ghost(c0), rx, ry, rw, rh, Ghost(drawn));
        proof { drawn = lemma_door_advance(s0, w, h, cands, k + 1, drawn, d); }
        y = y + 1;
    }
    proof {
        lemma_door_cands(rx as int, ry as int, rw as int, rh as int, 0);
        assert(cands.take(2 * rw + 2 * rh) =~= cands);
        assert(doors_with(c0, w, h, *room, drawn) == (level.cells(), doors@, drawn.len() as int));
    }
    doors
}

/// The scan over one more candidate takes one more step.
proof fn lemma_door_scan_next(s0: (Seq<Seq<Tile>>, Seq<(i32, i32)>, int), w: int, h: int, cands: Seq<(int, int, int, int)>, k: int,
    draws: Seq<bool>)
    requires
        0 <= k < cands.len(),
    ensures
        door_scan(s0, w, h, cands.take(k + 1), draws) == door_step(door_scan(s0, w, h, cands.take(k), draws), w, h, cands[k], draws),
{
    assert(cands.take(k + 1).drop_last() =~= cands.take(k));
}

/// The scan one candidate further, with the draw the candidate took (if any) appended.
proof fn lemma_door_advance(s0: (Seq<Seq<Tile>>, Seq<(i32, i32)>, int), w: int, h: int, cands: Seq<(int, int, int, int)>, k: int,
    drawn: Seq<bool>, d: Option<bool>) -> (after: Seq<bool>)
    requires
        s0.2 == 0,
        0 <= k < cands.len(),
        door_scan(s0, w, h, cands.take(k), drawn).2 == drawn.len(),
    ensures
        after == (match d { Some(b) => drawn.push(b), None => drawn }),
        door_scan(s0, w, h, cands.take(k + 1), after)
            == door_step(door_scan(s0, w, h, cands.take(k), drawn), w, h, cands[k], after),
{
    let after = match d { Some(b) => drawn.push(b), None => drawn };
    lemma_door_scan_frame(s0, w, h, cands.take(k), drawn, after);
    assert(cands.take(k + 1).drop_last() =~= cands.take(k));
    after
}

/// Strictly inside: `a` lies within `b` without touching its border.
pub open spec fn rect_strictly_within(a: Rect, b: Rect) -> bool {
    b.x < a.x && a.x + a.w < b.x + b.w && b.y < a.y && a.y + a.h < b.y + b.h
}

/// A point of `r`.
pub open spec fn point_in(p: (usize, usize), r: Rect) -> bool {
    r.x <= p.0 < r.x + r.w && r.y <= p.1 < r.y + r.h
}

/// The two halves of a split lie inside the cell, do not overlap, and are at least `min` on a side.
pub proof fn lemma_split_parts(cell: Rect, a: Rect, b: Rect, min: usize)
    requires
        split_ok(cell, a, b, min),
        min <= cell.w,
        min <= cell.h,
        cell_small(cell),
    ensures
        rect_within(a, cell),
        rect_within(b, cell),
        rects_disjoint(a, b),
        min <= a.w && min <= a.h && min <= b.w && min <= b.h,
{
    if exists|s: usize| min <= s && s + min <= cell.w && #[trigger] hsplit(cell, s) == (a, b) {
        let s = choose|s: usize| min <= s && s + min <= cell.w && #[trigger] hsplit(cell, s) == (a, b);
        assert(hsplit(cell, s) == (a, b));
    } else {
        let s = choose|s: usize| min <= s && s + min <= cell.h && #[trigger] vsplit(cell, s) == (a, b);
        assert(vsplit(cell, s) == (a, b));
    }
}

/// A leaf's room in a cell at least five tiles on a side lies strictly inside it and is at
/// least three tiles on a side.
pub proof fn lemma_leaf_room(cell: Rect, r: Rect)
    requires
        leaf_room_ok(cell, r),
        5 <= cell.w,
        5 <= cell.h,
        cell_small(cell),
    ensures
        rect_strictly_within(r, cell),
        r.w >= 3,
        r.h >= 3,
{
    let (ix, iy) = choose|ix: usize, iy: usize| {
        &&& 1 <= ix && ix <= (if cell.w / 4 >= 1 { cell.w / 4 } else { 1 })
        &&& 1 <= iy && iy <= (if cell.h / 4 >= 1 { cell.h / 4 } else { 1 })
        &&& #[trigger] room_at(cell, ix, iy) == r
    };
    assert(room_at(cell, ix, iy) == r);
    let qx = cell.w / 4;
    let qy = cell.h / 4;
    assert(cell.w == 4 * qx + cell.w % 4);
    assert(cell.h == 4 * qy + cell.h % 4);
    assert(cell.w >= 2 * ix + 3);
    assert(cell.h >= 2 * iy + 3);
}

/// Every room of a partition whose cells are at least five tiles on a side lies strictly inside
/// the root cell and is at least three tiles on a side.
pub proof fn law_rooms_inside(n: BspNode, min: usize)
    requires
        bsp_ok(n, min),
        bsp_small(n),
        5 <= min,
        min <= n.cell.w,
        min <= n.cell.h,
    ensures
        forall|i: int| 0 <= i < spec_rooms(n).len() ==> {
            &&& rect_strictly_within(#[trigger] spec_rooms(n)[i], n.cell)
            &&& spec_rooms(n)[i].w >= 3
            &&& spec_rooms(n)[i].h >= 3
        },
    decreases n,
{
    match n.room {
        Some(r) => {
            lemma_leaf_room(n.cell, r);
            assert(spec_rooms(n) == seq![r]);
        },
        None => {
            let l = *n.left.unwrap();
            let rt = *n.right.unwrap();
            lemma_split_parts(n.cell, l.cell, rt.cell, min);
            law_rooms_inside(l, min);
            law_rooms_inside(rt, min);
            let ls = spec_rooms(l);
            let rs = spec_rooms(rt);
            assert(spec_rooms(n) == ls + rs);
            assert forall|i: int| 0 <= i < spec_rooms(n).len() implies {
                &&& rect_strictly_within(#[trigger] spec_rooms(n)[i], n.cell)
                &&& spec_rooms(n)[i].w >= 3
                &&& spec_rooms(n)[i].h >= 3
            } by {
                if i < ls.len() {
                    assert(spec_rooms(n)[i] == ls[i]);
                } else {
                    assert(spec_rooms(n)[i] == rs[i - ls.len()]);
                }
            }
        },
    }
}

/// The rooms of distinct leaves of such a partition never overlap.
pub proof fn law_rooms_disjoint(n: BspNode, min: usize)
    requires
        bsp_ok(n, min),
        bsp_small(n),
        5 <= min,
        min <= n.cell.w,
        min <= n.cell.h,
    ensures
        forall|i: int, j: int| 0 <= i < j < spec_rooms(n).len() ==> rects_disjoint(#[trigger] spec_rooms(n)[i], #[trigger] spec_rooms(n)[j]),
    decreases n,
{
    match n.room {
        Some(r) => {
            assert(spec_rooms(n) == seq![r]);
        },
        None => {
            let l = *n.left.unwrap();
            let rt = *n.right.unwrap();
            lemma_split_parts(n.cell, l.cell, rt.cell, min);
            law_rooms_disjoint(l, min);
            law_rooms_disjoint(rt, min);
            law_rooms_inside(l, min);
            law_rooms_inside(rt, min);
            let ls = spec_rooms(l);
            let rs = spec_rooms(rt);
            assert(spec_rooms(n) == ls + rs);
            assert forall|i: int, j: int| 0 <= i < j < spec_rooms(n).len() implies rects_disjoint(#[trigger] spec_rooms(n)[i], #[trigger] spec_rooms(n)[j]) by {
                if j < ls.len() {
                    assert(spec_rooms(n)[i] == ls[i] && spec_rooms(n)[j] == ls[j]);
                } else if i >= ls.len() {
                    assert(spec_rooms(n)[i] == rs[i - ls.len()] && spec_rooms(n)[j] == rs[j - ls.len()]);
                } else {
                    assert(spec_rooms(n)[i] == ls[i] && spec_rooms(n)[j] == rs[j - ls.len()]);
                    assert(rect_strictly_within(ls[i], l.cell));
                    assert(rect_strictly_within(rs[j - ls.len()], rt.cell));
                }
            }
        },
    }
}

/// The center of a node and both ends of every corridor of such a partition lie inside its cell.
pub proof fn lemma_centers_inside(n: BspNode, min: usize)
    requires
        bsp_ok(n, min),
        bsp_small(n),
        5 <= min,
        min <= n.cell.w,
        min <= n.cell.h,
    ensures
        point_in(spec_node_center(n), n.cell),
        forall|i: int| 0 <= i < spec_corridors(n).len() ==> point_in((#[trigger] spec_corridors(n)[i]).0, n.cell)
            && point_in(spec_corridors(n)[i].1, n.cell),
    decreases n,
{
    law_rooms_inside(n, min);
    match n.room {
        Some(r) => {
            lemma_leaf_room(n.cell, r);
            assert(spec_corridors(n) =~= Seq::<((usize, usize), (usize, usize))>::empty());
        },
        None => {
            let l = *n.left.unwrap();
            let rt = *n.right.unwrap();
            lemma_split_parts(n.cell, l.cell, rt.cell, min);
            lemma_centers_inside(l, min);
            lemma_centers_inside(rt, min);
            let head = seq![(spec_node_center(l), spec_node_center(rt))];
            let lc = spec_corridors(l);
            let rc = spec_corridors(rt);
            assert(spec_corridors(n) == head + lc + rc);
            assert forall|i: int| 0 <= i < spec_corridors(n).len() implies point_in((#[trigger] spec_corridors(n)[i]).0, n.cell)
                && point_in(spec_corridors(n)[i].1, n.cell) by {
                if i == 0 {
                } else if i < 1 + lc.len() {
                    assert(spec_corridors(n)[i] == lc[i - 1]);
                } else {
                    assert(spec_corridors(n)[i] == rc[i - 1 - lc.len()]);
                }
            }
        },
    }
}

/// The station's root cell on every deck: the footprint inside its margin, less a one-tile rim.
pub open spec fn root_cell() -> Rect {
    Rect { x: (STATION_MARGIN + 1) as usize, y: (STATION_MARGIN + 1) as usize, w: (STATION_SIZE - 2) as usize, h: (STATION_SIZE - 2) as usize }
}

/// Side of the whole station map, margins included.
pub open spec fn map_side() -> usize {
    (STATION_SIZE + 2 * STATION_MARGIN) as usize
}

/// A `w` by `h` grid with every tile `t`.
pub open spec fn filled_grid(w: int, h: int, t: Tile) -> Seq<Seq<Tile>> {
    Seq::new(h as nat, |r: int| Seq::new(w as nat, |c: int| t))
}

/// The rooms stamped in order: each a rectangle of station wall with station floor inside.
pub open spec fn stamp_rooms(cells: Seq<Seq<Tile>>, rooms: Seq<Rect>) -> Seq<Seq<Tile>>
    decreases rooms.len(),
{
    if rooms.len() == 0 {
        cells
    } else {
        let r = rooms.last();
        let i = spec_inner(r);
        let walled = paint(stamp_rooms(cells, rooms.drop_last()), in_rect(r.x as int, r.y as int, r.w as int, r.h as int), Tile::StationWall);
        paint(walled, in_rect(i.x as int, i.y as int, i.w as int, i.h as int), Tile::StationFloor)
    }
}

/// The L-shaped corridors carved in order.
pub open spec fn carve_corridors(cells: Seq<Seq<Tile>>, cs: Seq<((usize, usize), (usize, usize))>) -> Seq<Seq<Tile>>
    decreases cs.len(),
{
    if cs.len() == 0 {
        cells
    } else {
        let (a, b) = cs.last();
        corridor_paint(carve_corridors(cells, cs.drop_last()), l_path(a.0 as int, a.1 as int, b.0 as int, b.1 as int),
            l_flanks(a.0 as int, a.1 as int, b.0 as int, b.1 as int))
    }
}

/// What `add_internal_walls` does to one room: a spine wall in a large room, nothing otherwise.
pub open spec fn internal_walls_ok(before: Seq<Seq<Tile>>, after: Seq<Seq<Tile>>, room: Rect) -> bool {
    if spec_inner(room).w >= 8 && spec_inner(room).h >= 8 {
        spine_placed(before, after, spec_inner(room))
    } else {
        after == before
    }
}

/// `steps` runs from `before` to `after` through `n` steps.
pub open spec fn chain_ends(steps: Seq<Seq<Seq<Tile>>>, before: Seq<Seq<Tile>>, after: Seq<Seq<Tile>>, n: int) -> bool {
    steps.len() == n + 1 && steps[0] == before && steps[n] == after
}

/// The rooms given their internal walls in order, through the grids `steps`.
pub open spec fn walls_chain(steps: Seq<Seq<Seq<Tile>>>, before: Seq<Seq<Tile>>, after: Seq<Seq<Tile>>, rooms: Seq<Rect>) -> bool {
    &&& chain_ends(steps, before, after, rooms.len() as int)
    &&& forall|i: int| 0 <= i < rooms.len() ==> internal_walls_ok(#[trigger] steps[i], steps[i + 1], rooms[i])
}

pub open spec fn all_internal_walls(before: Seq<Seq<Tile>>, after: Seq<Seq<Tile>>, rooms: Seq<Rect>) -> bool {
    exists|steps: Seq<Seq<Seq<Tile>>>| #[trigger] walls_chain(steps, before, after, rooms)
}

/// The rooms given their doors in order through the grids `steps`, the doors of room `i` being
/// `doors[ks[i]..ks[i + 1]]`.
pub open spec fn doors_chain(steps: Seq<Seq<Seq<Tile>>>, ks: Seq<int>, before: Seq<Seq<Tile>>, after: Seq<Seq<Tile>>, w: int, h: int,
    rooms: Seq<Rect>, doors: Seq<(i32, i32)>) -> bool {
    &&& chain_ends(steps, before, after, rooms.len() as int)
    &&& ks.len() == rooms.len() + 1
    &&& ks[0] == 0
    &&& ks[rooms.len() as int] == doors.len()
    &&& forall|i: int| 0 <= i < rooms.len() ==> #[trigger] ks[i] <= ks[i + 1]
    &&& forall|i: int| 0 <= i < rooms.len() ==> room_doors_ok(#[trigger] steps[i], steps[i + 1], w, h, rooms[i], doors.subrange(ks[i], ks[i + 1]))
}

/// The room's doors placed: `doors_ok`, and what some draws give.
#[verifier::opaque]
pub open spec fn room_doors_ok(before: Seq<Seq<Tile>>, after: Seq<Seq<Tile>>, w: int, h: int, room: Rect, doors: Seq<(i32, i32)>) -> bool {
    &&& doors_ok(before, after, w, h, room.x as int, room.y as int, room.w as int, room.h as int, doors)
    &&& exists|d: Seq<bool>| #[trigger] doors_with(before, w, h, room, d) == (after, doors, d.len() as int)
}

pub open spec fn all_doors(before: Seq<Seq<Tile>>, after: Seq<Seq<Tile>>, w: int, h: int, rooms: Seq<Rect>, doors: Seq<(i32, i32)>) -> bool {
    exists|steps: Seq<Seq<Seq<Tile>>>, ks: Seq<int>| #[trigger] doors_chain(steps, ks, before, after, w, h, rooms, doors)
}

/// A corridor left alone, or given conduit along its horizontal leg.
pub open spec fn conduit_ok(before: Seq<Seq<Tile>>, after: Seq<Seq<Tile>>, c: ((usize, usize), (usize, usize))) -> bool {
    let (a, b) = c;
    after == before || after == repaint_where(before, leg_h(a.0 as int, a.1 as int, b.0 as int), Tile::DeckPlate, Tile::Conduit)
}

/// The corridors in order, each left alone or given conduit, through the grids `steps`.
pub open spec fn conduits_chain(steps: Seq<Seq<Seq<Tile>>>, before: Seq<Seq<Tile>>, after: Seq<Seq<Tile>>, cs: Seq<((usize, usize), (usize, usize))>) -> bool {
    &&& chain_ends(steps, before, after, cs.len() as int)
    &&& forall|i: int| 0 <= i < cs.len() ==> conduit_ok(#[trigger] steps[i], steps[i + 1], cs[i])
}

pub open spec fn all_conduits(before: Seq<Seq<Tile>>, after: Seq<Seq<Tile>>, cs: Seq<((usize, usize), (usize, usize))>) -> bool {
    exists|steps: Seq<Seq<Seq<Tile>>>| #[trigger] conduits_chain(steps, before, after, cs)
}

/// The deck `after` was built from `before` by the partition `bsp` through the intermediate grids
/// given: rooms stamped and corridors carved, then internal walls (`walled`), doors (`doored`),
/// conduit (`piped`), windows (`windowed`) and, on the first deck, the ship dock at the first
/// room's centre. The elevator stands at the centre of the middle room.
pub open spec fn deck_steps(before: Seq<Seq<Tile>>, after: Seq<Seq<Tile>>, first: bool, doors: Seq<(i32, i32)>, stair: (usize, usize),
    bsp: BspNode, walled: Seq<Seq<Tile>>, doored: Seq<Seq<Tile>>, piped: Seq<Seq<Tile>>, windowed: Seq<Seq<Tile>>) -> bool {
    let rooms = spec_rooms(bsp);
    let side = map_side() as int;
    &&& bsp.cell == root_cell()
    &&& bsp_ok(bsp, 8)
    &&& exists|d: Seq<usize>| #[trigger] bsp_grow(root_cell(), 8, 4, d, 0).0 == bsp
    &&& bsp_small(bsp)
    &&& rooms.len() > 0
    &&& forall|i: int| 0 <= i < rooms.len() ==> rect_strictly_within(#[trigger] rooms[i], root_cell()) && rooms[i].w >= 3 && rooms[i].h >= 3
    &&& forall|i: int, j: int| 0 <= i < j < rooms.len() ==> rects_disjoint(#[trigger] rooms[i], #[trigger] rooms[j])
    &&& all_internal_walls(carve_corridors(stamp_rooms(before, rooms), spec_corridors(bsp)), walled, rooms)
    &&& all_doors(walled, doored, side, side, rooms, doors)
    &&& all_conduits(doored, piped, spec_corridors(bsp))
    &&& windows_ok(piped, windowed, side, side, side)
    &&& exists|d: Seq<bool>| #[trigger] windows_with(piped, side, side, side, d) == windowed
    &&& after == (if first {
        set_cells(windowed, side, side, spec_center(rooms[0]).0 as int, spec_center(rooms[0]).1 as int, Tile::ShipDock)
    } else {
        windowed
    })
    &&& stair == spec_center(rooms[(rooms.len() / 2) as int])
}

/// Some partition of the root cell and some outcome of each random step build `after` from
/// `before`, opening `doors` and putting the elevator at `stair`.
pub open spec fn deck_built(before: Seq<Seq<Tile>>, after: Seq<Seq<Tile>>, first: bool, doors: Seq<(i32, i32)>, stair: (usize, usize)) -> bool {
    exists|bsp: BspNode, walled: Seq<Seq<Tile>>, doored: Seq<Seq<Tile>>, piped: Seq<Seq<Tile>>, windowed: Seq<Seq<Tile>>|
        #[trigger] deck_steps(before, after, first, doors, stair, bsp, walled, doored, piped, windowed)
}

/// Lays out one deck on `level`: partition rooms, walls and floors, corridors, spine walls,
/// doors, conduit, windows and, on the first deck, the ship dock. Returns the doors opened and
/// the spot for the deck's elevator.
#[verifier::spinoff_prover]
#[verifier::rlimit(60)]
fn build_deck(level: &mut Level, rng: &mut SmallRng, first: bool) -> (r: (Vec<(i32, i32)>, (usize, usize)))
    requires
        old(level).wf(),
        old(level).width == map_side(),
        old(level).height == map_side(),
    ensures
        final(level).wf(),
        final(level).width == map_side(),
        final(level).height == map_side(),
        point_in(r.1, root_cell()),
        forall|k: int| 0 <= k < r.0@.len() ==> 0 <= (#[trigger] r.0@[k]).0 < map_side() && 0 <= r.0@[k].1 < map_side(),
        deck_built(old(level).cells(), final(level).cells(), first, r.0@, r.1),
{
    let ghost c0 = level.cells();
    let ghost side = map_side() as int;
    let size = STATION_SIZE;
    let root = Rect { x: STATION_MARGIN + 1, y: STATION_MARGIN + 1, w: size - 2, h: size - 2 };
    let bsp = BspNode::leaf(root).split(rng, 8, 4);
    proof {
        assert(root == root_cell());
        let d = choose|d: Seq<usize>| #[trigger] bsp_grow(root, 8, 4nat, d, 0) == (bsp, d.len() as int);
        assert(bsp_grow(root_cell(), 8, 4, d, 0).0 == bsp);
        assert(exists|d: Seq<usize>| #[trigger] bsp_grow(root_cell(), 8, 4, d, 0).0 == bsp);
    }
    proof {
        law_rooms_inside(bsp, 8);
        law_rooms_disjoint(bsp, 8);
        lemma_centers_inside(bsp, 8);
        lemma_rooms_nonempty(bsp, 8);
    }
    let rooms = bsp.rooms();
    let mut i: usize = 0;
    while i < rooms.len()
        invariant
            level.wf(),
            level.width == map_side(),
            level.height == map_side(),
            rooms@ == spec_rooms(bsp),
            i <= rooms@.len(),
            forall|k: int| 0 <= k < rooms@.len() ==> rect_strictly_within(#[trigger] rooms@[k], root_cell()),
            level.cells() == stamp_rooms(c0, rooms@.take(i as int)),
        decreases rooms@.len() - i,
    {
        let room = rooms[i];
        assert(rect_strictly_within(rooms@[i as int], root_cell()));
        fill_rect(level, room.x as i32, room.y as i32, room.w, room.h, Tile::StationWall);
        let inner = room.inner();
        fill_rect(level, inner.x as i32, inner.y as i32, inner.w, inner.h, Tile::StationFloor);
        proof {
            assert(rooms@.take(i + 1).drop_last() =~= rooms@.take(i as int));
            assert(rooms@.take(i + 1).last() == room);
        }
        i = i + 1;
    }
    proof { assert(rooms@.take(rooms@.len() as int) =~= rooms@); }
    let ghost stamped = level.cells();
    let mut corridors: Vec<((usize, usize), (usize, usize))> = Vec::new();
    bsp.collect_corridors(&mut corridors);
    assert(corridors@ =~= spec_corridors(bsp));
    let mut k: usize = 0;
    while k < corridors.len()
        invariant
            level.wf(),
            level.width == map_side(),
            level.height == map_side(),
            corridors@ == spec_corridors(bsp),
            k <= corridors@.len(),
            forall|j: int| 0 <= j < corridors@.len() ==> point_in((#[trigger] corridors@[j]).0, root_cell()) && point_in(corridors@[j].1, root_cell()),
            level.cells() == carve_corridors(stamped, corridors@.take(k as int)),
        decreases corridors@.len() - k,
    {
        let ((ax, ay), (bx, by)) = corridors[k];
        assert(point_in(corridors@[k as int].0, root_cell()) && point_in(corridors@[k as int].1, root_cell()));
        carve_corridor(level, ax, ay, bx, by);
        proof {
            assert(corridors@.take(k + 1).drop_last() =~= corridors@.take(k as int));
            assert(corridors@.take(k + 1).last() == corridors@[k as int]);
        }
        k = k + 1;
    }
    proof { assert(corridors@.take(corridors@.len() as int) =~= corridors@); }
    let ghost carved = level.cells();
    let ghost mut wsteps: Seq<Seq<Seq<Tile>>> = seq![carved];
    let mut i: usize = 0;
    while i < rooms.len()
        invariant
            level.wf(),
            level.width == map_side(),
            level.height == map_side(),
            i <= rooms@.len(),
            forall|k: int| 0 <= k < rooms@.len() ==> rect_strictly_within(#[trigger] rooms@[k], root_cell()),
            walls_chain(wsteps, carved, level.cells(), rooms@.take(i as int)),
        decreases rooms@.len() - i,
    {
        let room = rooms[i];
        assert(rect_strictly_within(rooms@[i as int], root_cell()));
        let ghost mid = level.cells();
        add_internal_walls(level, &room, rng);
        proof {
            let t = rooms@.take(i + 1);
            let old_steps = wsteps;
            wsteps = wsteps.push(level.cells());
            assert forall|j: int| 0 <= j < t.len() implies internal_walls_ok(#[trigger] wsteps[j], wsteps[j + 1], t[j]) by {
                if j < i {
                    assert(wsteps[j] == old_steps[j] && wsteps[j + 1] == old_steps[j + 1]);
                    assert(t[j] == rooms@.take(i as int)[j]);
                }
            }
        }
        i = i + 1;
    }
    proof {
        assert(rooms@.take(rooms@.len() as int) =~= rooms@);
        assert(walls_chain(wsteps, carved, level.cells(), rooms@));
    }
    let ghost walled = level.cells();
    let ghost mut dsteps: Seq<Seq<Seq<Tile>>> = seq![walled];
    let ghost mut ks: Seq<int> = seq![0int];
    let mut doors: Vec<(i32, i32)> = Vec::new();
    let mut i: usize = 0;
    while i < rooms.len()
        invariant
            level.wf(),
            level.width == map_side(),
            level.height == map_side(),
            i <= rooms@.len(),
            side == map_side(),
            forall|k: int| 0 <= k < rooms@.len() ==> rect_strictly_within(#[trigger] rooms@[k], root_cell()) && rooms@[k].w >= 3 && rooms@[k].h >= 3,
            forall|k: int| 0 <= k < doors@.len() ==> 0 <= (#[trigger] doors@[k]).0 < map_side() && 0 <= doors@[k].1 < map_side(),
            doors_chain(dsteps, ks, walled, level.cells(), side, side, rooms@.take(i as int), doors@),
        decreases rooms@.len() - i,
    {
        let room = rooms[i];
        assert(rect_strictly_within(rooms@[i as int], root_cell()) && rooms@[i as int].w >= 3);
        let ghost mid = level.cells();
        let mut found = place_room_doors(level, &room, rng);
        let ghost before = doors@;
        let ghost added = found@;
        doors.append(&mut found);
        proof {
            assert forall|j: int| 0 <= j < doors@.len() implies 0 <= (#[trigger] doors@[j]).0 < map_side() && 0 <= doors@[j].1 < map_side() by {
                if j < before.len() {
                    assert(doors@[j] == before[j]);
                } else {
                    assert(doors@[j] == added[j - before.len()]);
                }
            }
            assert(rooms@.take(i + 1) =~= rooms@.take(i as int).push(room));
            reveal(room_doors_ok);
            lemma_doors_chain_push(dsteps, ks, walled, mid, level.cells(), side, side, rooms@.take(i as int), room, before, added);
            dsteps = dsteps.push(level.cells());
            ks = ks.push((before.len() + added.len()) as int);
        }
        i = i + 1;
    }
    proof {
        assert(rooms@.take(rooms@.len() as int) =~= rooms@);
        assert(doors_chain(dsteps, ks, walled, level.cells(), side, side, rooms@, doors@));
    }
    let ghost doored = level.cells();
    let ghost mut csteps: Seq<Seq<Seq<Tile>>> = seq![doored];
    let mut k: usize = 0;
    while k < corridors.len()
        invariant
            level.wf(),
            level.width == map_side(),
            level.height == map_side(),
            k <= corridors@.len(),
            forall|j: int| 0 <= j < corridors@.len() ==> point_in((#[trigger] corridors@[j]).0, root_cell()) && point_in(corridors@[j].1, root_cell()),
            conduits_chain(csteps, doored, level.cells(), corridors@.take(k as int)),
        decreases corridors@.len() - k,
    {
        let ((ax, ay), (bx, by)) = corridors[k];
        assert(point_in(corridors@[k as int].0, root_cell()) && point_in(corridors@[k as int].1, root_cell()));
        let ghost mid = level.cells();
        if small_ratio(rng, 3, 10) {
            stamp_conduit(level, ax, ay, bx, by);
        }
        proof {
            let t = corridors@.take(k + 1);
            let old_steps = csteps;
            csteps = csteps.push(level.cells());
            assert forall|j: int| 0 <= j < t.len() implies conduit_ok(#[trigger] csteps[j], csteps[j + 1], t[j]) by {
                if j < k {
                    assert(csteps[j] == old_steps[j] && csteps[j + 1] == old_steps[j + 1]);
                    assert(t[j] == corridors@.take(k as int)[j]);
                }
            }
        }
        k = k + 1;
    }
    proof {
        assert(corridors@.take(corridors@.len() as int) =~= corridors@);
        assert(conduits_chain(csteps, doored, level.cells(), corridors@));
    }
    let ghost piped = level.cells();
    place_windows(level, STATION_SIZE + 2 * STATION_MARGIN, rng);
    let ghost windowed = level.cells();
    if first && rooms.len() > 0 {
        let (dx, dy) = rooms[0].center();
        assert(rect_strictly_within(rooms@[0], root_cell()));
        level.set(dx as i32, dy as i32, Tile::ShipDock);
    }
    let stair = if rooms.len() > 0 {
        assert(rect_strictly_within(rooms@[(rooms@.len() / 2) as int], root_cell()));
        rooms[rooms.len() / 2].center()
    } else {
        root.center()
    };
    proof {
        assert(deck_steps(c0, level.cells(), first, doors@, stair, bsp, walled, doored, piped, windowed));
    }
    (doors, stair)
}

/// A doors chain extended by one more room and its doors.
pub proof fn lemma_doors_chain_push(steps: Seq<Seq<Seq<Tile>>>, ks: Seq<int>, before: Seq<Seq<Tile>>, mid: Seq<Seq<Tile>>, after: Seq<Seq<Tile>>,
    w: int, h: int, rooms: Seq<Rect>, room: Rect, doors: Seq<(i32, i32)>, added: Seq<(i32, i32)>)
    requires
        doors_chain(steps, ks, before, mid, w, h, rooms, doors),
        room_doors_ok(mid, after, w, h, room, added),
    ensures
        doors_chain(steps.push(after), ks.push((doors.len() + added.len()) as int), before, after, w, h, rooms.push(room), doors + added),
{
    let n = rooms.len() as int;
    let s2 = steps.push(after);
    let k2 = ks.push((doors.len() + added.len()) as int);
    let t = rooms.push(room);
    let all = doors + added;
    assert(all.subrange(doors.len() as int, all.len() as int) =~= added);
    assert forall|j: int| 0 <= j < t.len() implies #[trigger] k2[j] <= k2[j + 1] by {
        if j < n {
            assert(k2[j] == ks[j] && k2[j + 1] == ks[j + 1]);
        }
    }
    assert forall|j: int| 0 <= j < t.len() implies room_doors_ok(#[trigger] s2[j], s2[j + 1], w, h, t[j], all.subrange(k2[j], k2[j + 1])) by {
        if j < n {
            assert(s2[j] == steps[j] && s2[j + 1] == steps[j + 1]);
            assert(k2[j] == ks[j] && k2[j + 1] == ks[j + 1]);
            assert(t[j] == rooms[j]);
            lemma_ks_bounded(ks, n, doors.len() as int, j);
            lemma_ks_nonneg(ks, n, j);
            assert(all.subrange(k2[j], k2[j + 1]) =~= doors.subrange(ks[j], ks[j + 1]));
        }
    }
}

/// The offsets of a doors chain start at zero and never fall.
pub proof fn lemma_ks_nonneg(ks: Seq<int>, n: int, j: int)
    requires
        ks.len() == n + 1,
        ks[0] == 0,
        forall|i: int| 0 <= i < n ==> #[trigger] ks[i] <= ks[i + 1],
        0 <= j <= n,
    ensures
        0 <= ks[j],
    decreases j,
{
    if j > 0 {
        lemma_ks_nonneg(ks, n, j - 1);
        assert(ks[j - 1] <= ks[j]);
    }
}

/// The offsets of a doors chain never pass its last one.
pub proof fn lemma_ks_bounded(ks: Seq<int>, n: int, last: int, j: int)
    requires
        ks.len() == n + 1,
        ks[n] == last,
        forall|i: int| 0 <= i < n ==> #[trigger] ks[i] <= ks[i + 1],
        0 <= j < n,
    ensures
        ks[j] <= ks[j + 1] <= last,
    decreases n - j,
{
    if j + 1 < n {
        lemma_ks_bounded(ks, n, last, j + 1);
    }
}

/// A partition always has at least one room.
pub proof fn lemma_rooms_nonempty(n: BspNode, min: usize)
    requires
        bsp_ok(n, min),
    ensures
        spec_rooms(n).len() > 0,
    decreases n,
{
    match n.room {
        Some(r) => {},
        None => {
            let l = *n.left.unwrap();
            let rt = *n.right.unwrap();
            lemma_rooms_nonempty(l, min);
            assert(spec_rooms(n) == spec_rooms(l) + spec_rooms(rt));
        },
    }
}

/// A generated station: its location, the doors opened on each deck (to become airlocks) and
/// each deck's elevator spot.
pub struct StationPlan {
    pub location: Location,
    pub doors: Vec<(i32, i32, usize)>,
    pub stairs: Vec<(usize, usize)>,
}

/// The doors of `doors` on deck `z`, in order.
pub open spec fn doors_on(doors: Seq<(i32, i32, usize)>, z: int) -> Seq<(i32, i32)>
    decreases doors.len(),
{
    if doors.len() == 0 {
        Seq::empty()
    } else {
        let d = doors.last();
        let rest = doors_on(doors.drop_last(), z);
        if d.2 as int == z { rest.push((d.0, d.1)) } else { rest }
    }
}

/// Every deck of the plan's `decks` was built from vacuum by `build_deck`'s steps, the first
/// with the ship dock, opening the plan's doors on that deck and with its elevator at the plan's
/// stairs spot.
pub open spec fn station_built(plan: StationPlan, decks: usize) -> bool {
    forall|z: int| 0 <= z < decks ==> deck_built(filled_grid(map_side() as int, map_side() as int, Tile::Vacuum),
        (#[trigger] plan.location.levels@[z]).cells(), z == 0, doors_on(plan.doors@, z), plan.stairs@[z])
}

pub proof fn lemma_doors_on_push(doors: Seq<(i32, i32, usize)>, d: (i32, i32, usize), z: int)
    ensures
        doors_on(doors.push(d), z) == if d.2 as int == z { doors_on(doors, z).push((d.0, d.1)) } else { doors_on(doors, z) },
{
    assert(doors.push(d).drop_last() =~= doors);
}

pub proof fn lemma_doors_on_none(doors: Seq<(i32, i32, usize)>, z: int)
    requires
        forall|k: int| 0 <= k < doors.len() ==> (#[trigger] doors[k]).2 < z,
    ensures
        doors_on(doors, z) == Seq::<(i32, i32)>::empty(),
    decreases doors.len(),
{
    if doors.len() > 0 {
        let rest = doors.drop_last();
        assert forall|k: int| 0 <= k < rest.len() implies (#[trigger] rest[k]).2 < z by {
            assert(rest[k] == doors[k]);
        }
        lemma_doors_on_none(rest, z);
        assert(doors.last() == doors[doors.len() - 1]);
    }
}

/// A level filled with one tile has the filled grid as its cells.
pub proof fn lemma_filled_cells(l: Level, w: usize, h: usize, t: Tile)
    requires
        level_filled(l, w, h, t),
    ensures
        l.cells() == filled_grid(w as int, h as int, t),
{
    l.lemma_wf_dims();
    let g = filled_grid(w as int, h as int, t);
    assert forall|r: int| 0 <= r < h implies #[trigger] l.cells()[r] =~= g[r] by {
        assert forall|c: int| 0 <= c < w implies l.cells()[r][c] == t by {
            assert(l.in_bounds(c, r));
            assert(l.tile_at(c, r) == t);
        }
    }
    assert(l.cells() =~= g);
}

/// Generates a station from `params`: `decks` levels of the square station map, each laid out
/// by `build_deck` from a generator seeded with the params' seed (a fixed one when unseeded).
pub fn generate(params: &StationParams) -> (plan: StationPlan)
    ensures
        plan.location.wf(),
        plan.location.name == params.name,
        plan.location.width == map_side(),
        plan.location.height == map_side(),
        plan.location.depth == params.decks,
        plan.location.location_type == LocationType::SpaceStation,
        plan.stairs@.len() == params.decks,
        forall|k: int| 0 <= k < plan.stairs@.len() ==> point_in(#[trigger] plan.stairs@[k], root_cell()),
        forall|k: int| 0 <= k < plan.doors@.len() ==> (#[trigger] plan.doors@[k]).2 < params.decks
            && 0 <= plan.doors@[k].0 < map_side() && 0 <= plan.doors@[k].1 < map_side(),
        station_built(plan, params.decks),
{
    let seed = match params.seed {
        Some(s) => s,
        None => 0x5EED_5EED,
    };
    let mut rng = small_rng_from_seed(seed);
    let map_size = STATION_SIZE + 2 * STATION_MARGIN;
    let mut loc = Location::new(params.name, map_size, map_size, params.decks, LocationType::SpaceStation, Tile::Vacuum);
    let ghost blank = filled_grid(map_side() as int, map_side() as int, Tile::Vacuum);
    let mut stairs: Vec<(usize, usize)> = Vec::new();
    let mut doors: Vec<(i32, i32, usize)> = Vec::new();
    let mut z: usize = 0;
    while z < params.decks
        invariant
            loc.wf(),
            loc.name == params.name,
            loc.width == map_size,
            loc.height == map_size,
            loc.depth == params.decks,
            loc.location_type == LocationType::SpaceStation,
            map_size == map_side(),
            blank == filled_grid(map_side() as int, map_side() as int, Tile::Vacuum),
            z <= params.decks,
            stairs@.len() == z,
            forall|k: int| 0 <= k < stairs@.len() ==> point_in(#[trigger] stairs@[k], root_cell()),
            forall|k: int| 0 <= k < doors@.len() ==> (#[trigger] doors@[k]).2 < z
                && 0 <= doors@[k].0 < map_side() && 0 <= doors@[k].1 < map_side(),
            forall|k: int| z <= k < params.decks ==> level_filled(#[trigger] loc.levels@[k], map_size, map_size, Tile::Vacuum),
            forall|k: int| 0 <= k < z ==> deck_built(blank, (#[trigger] loc.levels@[k]).cells(), k == 0, doors_on(doors@, k), stairs@[k]),
        decreases params.decks - z,
    {
        assert(level_filled(loc.levels@[z as int], map_size, map_size, Tile::Vacuum));
        proof { lemma_filled_cells(loc.levels@[z as int], map_size, map_size, Tile::Vacuum); }
        let ghost before = loc.levels@;
        let level = loc.level_mut(z);
        let (found, stair) = build_deck(level, &mut rng, z == 0);
        proof {
            assert forall|k: int| 0 <= k < loc.depth implies level_fits(#[trigger] loc.levels@[k], loc.width, loc.height) by {
                if k != z {
                    assert(loc.levels@[k] == before[k]);
                }
            }
            assert forall|k: int| z < k < params.decks implies level_filled(#[trigger] loc.levels@[k], map_size, map_size, Tile::Vacuum) by {
                assert(loc.levels@[k] == before[k]);
            }
        }
        let ghost stairs0 = stairs@;
        stairs.push(stair);
        let ghost doors0 = doors@;
        proof { lemma_doors_on_none(doors0, z as int); }
        let mut j: usize = 0;
        while j < found.len()
            invariant
                z < params.decks,
                0 <= j <= found@.len(),
                forall|k: int| 0 <= k < found@.len() ==> 0 <= (#[trigger] found@[k]).0 < map_side() && 0 <= found@[k].1 < map_side(),
                forall|k: int| 0 <= k < doors@.len() ==> (#[trigger] doors@[k]).2 < z + 1
                    && 0 <= doors@[k].0 < map_side() && 0 <= doors@[k].1 < map_side(),
                forall|k: int| 0 <= k < z ==> #[trigger] doors_on(doors@, k) == doors_on(doors0, k),
                doors_on(doors@, z as int) == found@.take(j as int),
            decreases found@.len() - j,
        {
            let (dx, dy) = found[j];
            assert(0 <= found@[j as int].0 < map_side());
            let ghost d1 = doors@;
            doors.push((dx, dy, z));
            proof {
                assert forall|k: int| 0 <= k < z implies #[trigger] doors_on(doors@, k) == doors_on(doors0, k) by {
                    lemma_doors_on_push(d1, (dx, dy, z), k);
                }
                lemma_doors_on_push(d1, (dx, dy, z), z as int);
                assert(found@.take(j + 1) =~= found@.take(j as int).push((dx, dy)));
            }
            j = j + 1;
        }
        proof {
            assert(found@.take(found@.len() as int) =~= found@);
            assert forall|k: int| 0 <= k < z + 1 implies deck_built(blank, (#[trigger] loc.levels@[k]).cells(), k == 0, doors_on(doors@, k), stairs@[k]) by {
                if k < z {
                    assert(loc.levels@[k] == before[k]);
                    assert(stairs@[k] == stairs0[k]);
                    assert(doors_on(doors@, k) == doors_on(doors0, k));
                }
            }
        }
        z = z + 1;
    }
    StationPlan { location: loc, doors, stairs }
}

/// Where each generated station sits in the galaxy.
pub const ID_NOVA_OUTPOST: (i32, i32, i32) = (2, 1, 0);
pub const ID_IRON_RING: (i32, i32, i32) = (3, 1, 0);
pub const ID_VEGA_RELAY: (i32, i32, i32) = (0, 4, 0);

/// The galaxy's generated stations: Nova Outpost, Iron Ring Station (three decks) and Vega Relay
/// (four decks of ten rooms), each from its own fixed seed.
pub fn all() -> (v: Vec<((i32, i32, i32), StationPlan)>)
    ensures
        v@.len() == 3,
        v@[0].0 == ID_NOVA_OUTPOST && v@[0].1.location.depth == 2,
        v@[1].0 == ID_IRON_RING && v@[1].1.location.depth == 3,
        v@[2].0 == ID_VEGA_RELAY && v@[2].1.location.depth == 4,
        forall|k: int| 0 <= k < 3 ==> (#[trigger] v@[k]).1.location.wf() && v@[k].1.location.location_type == LocationType::SpaceStation
            && station_built(v@[k].1, v@[k].1.location.depth),
{
    let mut v: Vec<((i32, i32, i32), StationPlan)> = Vec::new();
    v.push((ID_NOVA_OUTPOST, generate(&StationParams::new("Nova Outpost").with_seed(0xABCD_1234))));
    v.push((ID_IRON_RING, generate(&StationParams::new("Iron Ring Station").with_decks(3).with_seed(0x9876_FEDC))));
    v.push((ID_VEGA_RELAY, generate(&StationParams::new("Vega Relay").with_decks(4).with_rooms(10).with_seed(0x1111_2222))));
    v
}

} // verus!
