//! Visibility: dual-pass shadow propagation over a fixed window around the viewer.
//!
//! Two passes propagate visibility outward from the viewer:
//!   1. Diagonal pass (Chebyshev distance): spreads through 8-neighbors
//!   2. Straight pass (Manhattan distance): spreads through 8-neighbors but
//!      only to tiles already reached by the diagonal pass
//! A tile must be reached by BOTH passes to be visible. Opaque tiles are
//! reached (you see the wall face) but don't propagate further.
//! A final boundary pass reveals wall faces adjacent to visible areas.
use vstd::prelude::*;
use crate::level::{Level, Tile};

verus! {

/// FOV never reaches past this many tiles, so visibility is stored as a fixed window
/// centered on the viewer rather than a full-level grid.
pub const FOV_MAX_RADIUS: i32 = 20;
const FOV_SIDE: usize = 41;
const FOV_CELLS: usize = 1681;
/// Side of the window of sight-blocking answers (one ring wider than the FOV window).
const MASK_SIDE: usize = 43;
const MASK_CELLS: usize = 1849;

pub open spec fn abs(v: int) -> int {
    if v < 0 { -v } else { v }
}

/// Chebyshev distance of an offset from the viewer.
pub open spec fn cheb(dx: int, dy: int) -> int {
    if abs(dx) >= abs(dy) { abs(dx) } else { abs(dy) }
}

/// Manhattan distance of an offset from the viewer.
pub open spec fn manh(dx: int, dy: int) -> int {
    abs(dx) + abs(dy)
}

/// The offset lies within `r` of the viewer on both axes.
pub open spec fn in_grid(r: int, dx: int, dy: int) -> bool {
    -r <= dx <= r && -r <= dy <= r
}

/// Window index of an offset.
pub open spec fn spec_idx(dx: int, dy: int) -> int {
    (dy + 20) * 41 + (dx + 20)
}

pub open spec fn mask_idx(dx: int, dy: int) -> int {
    (dy + 21) * 43 + (dx + 21)
}

/// Whether the tile at offset `(dx, dy)` from the viewer at `(cx, cy)` stops sight: off the
/// level, an opaque tile, or flagged by `blocks`. The viewer's own tile never does.
pub open spec fn sight_opaque(level: Level, cx: int, cy: int, blocks: spec_fn(int, int) -> bool) -> spec_fn(int, int) -> bool {
    |dx: int, dy: int|
        !(dx == 0 && dy == 0) && match level.tile_opt(cx + dx, cy + dy) {
            None => true,
            Some(t) => t.spec_opaque() || blocks(cx + dx, cy + dy),
        }
}

/// Diagonal pass: the offset is reached when it is in the first ring, or when a neighbor one
/// ring closer is reached and transparent.
pub open spec fn diag_reached(r: int, opq: spec_fn(int, int) -> bool, dx: int, dy: int) -> bool
    decreases cheb(dx, dy), 1int,
{
    let k = cheb(dx, dy);
    if !in_grid(r, dx, dy) || k == 0 {
        false
    } else if k == 1 {
        true
    } else {
        diag_from(r, opq, dx - 1, dy - 1, k) || diag_from(r, opq, dx - 1, dy, k)
            || diag_from(r, opq, dx - 1, dy + 1, k) || diag_from(r, opq, dx, dy - 1, k)
            || diag_from(r, opq, dx, dy + 1, k) || diag_from(r, opq, dx + 1, dy - 1, k)
            || diag_from(r, opq, dx + 1, dy, k) || diag_from(r, opq, dx + 1, dy + 1, k)
    }
}

/// The neighbor `(nx, ny)` passes the diagonal spread on to ring `k`.
pub open spec fn diag_from(r: int, opq: spec_fn(int, int) -> bool, nx: int, ny: int, k: int) -> bool
    decreases k, 0int,
{
    if in_grid(r, nx, ny) && 1 <= k && cheb(nx, ny) == k - 1 {
        diag_reached(r, opq, nx, ny) && !opq(nx, ny)
    } else {
        false
    }
}

/// Straight pass: the offset must be reached by the diagonal pass, and be in the first
/// Manhattan shell or next to a reached transparent neighbor one shell closer.
pub open spec fn straight_reached(r: int, opq: spec_fn(int, int) -> bool, dx: int, dy: int) -> bool
    decreases manh(dx, dy), 1int,
{
    let m = manh(dx, dy);
    if !in_grid(r, dx, dy) || m == 0 || !diag_reached(r, opq, dx, dy) {
        false
    } else if m == 1 {
        true
    } else {
        straight_from(r, opq, dx - 1, dy - 1, m) || straight_from(r, opq, dx - 1, dy, m)
            || straight_from(r, opq, dx - 1, dy + 1, m) || straight_from(r, opq, dx, dy - 1, m)
            || straight_from(r, opq, dx, dy + 1, m) || straight_from(r, opq, dx + 1, dy - 1, m)
            || straight_from(r, opq, dx + 1, dy, m) || straight_from(r, opq, dx + 1, dy + 1, m)
    }
}

pub open spec fn straight_from(r: int, opq: spec_fn(int, int) -> bool, nx: int, ny: int, m: int) -> bool
    decreases m, 0int,
{
    if in_grid(r, nx, ny) && 1 <= m && manh(nx, ny) == m - 1 {
        straight_reached(r, opq, nx, ny) && !opq(nx, ny)
    } else {
        false
    }
}

/// Lit after both passes: the eye, and every offset reached by both.
pub open spec fn lit_after_passes(r: int, opq: spec_fn(int, int) -> bool) -> spec_fn(int, int) -> bool {
    |x: int, y: int| (x == 0 && y == 0) || straight_reached(r, opq, x, y)
}

pub open spec fn lit_in(lit: spec_fn(int, int) -> bool, r: int, x: int, y: int) -> bool {
    in_grid(r, x, y) && lit(x, y)
}

/// Corner rule: the diagonal neighbor and both cells between are lit, the two cells between
/// are opaque and the diagonal neighbor is not.
pub open spec fn corner_face(lit: spec_fn(int, int) -> bool, r: int, opq: spec_fn(int, int) -> bool, x: int, y: int, cdx: int, cdy: int) -> bool {
    lit_in(lit, r, x + cdx, y + cdy) && lit_in(lit, r, x + cdx, y) && lit_in(lit, r, x, y + cdy)
        && opq(x + cdx, y) && opq(x, y + cdy) && !opq(x + cdx, y + cdy)
}

/// An unlit opaque cell that shows its face: both opposite cardinal neighbors lit on one
/// axis (wall rule), or a corner rule.
pub open spec fn wall_face(lit: spec_fn(int, int) -> bool, r: int, opq: spec_fn(int, int) -> bool, x: int, y: int) -> bool {
    !lit(x, y) && opq(x, y) && (
    (lit_in(lit, r, x + 1, y) && lit_in(lit, r, x - 1, y)) || (lit_in(lit, r, x, y + 1) && lit_in(lit, r, x, y - 1))
        || corner_face(lit, r, opq, x, y, -1, -1) || corner_face(lit, r, opq, x, y, -1, 1)
        || corner_face(lit, r, opq, x, y, 1, -1) || corner_face(lit, r, opq, x, y, 1, 1))
}

pub open spec fn lit_step(lit: spec_fn(int, int) -> bool, r: int, opq: spec_fn(int, int) -> bool, x: int, y: int) -> spec_fn(int, int) -> bool {
    |a: int, b: int| lit(a, b) || (a == x && b == y && wall_face(lit, r, opq, x, y))
}

/// The lit cells just before the boundary pass examines `(dx, dy)`; the pass scans
/// columns `dx` from `-r` to `r`, each from `dy = -r` to `r`.
pub open spec fn lit_before(r: int, opq: spec_fn(int, int) -> bool, dx: int, dy: int) -> spec_fn(int, int) -> bool
    decreases dx + r, dy + r,
{
    if dx < -r || dy < -r {
        lit_after_passes(r, opq)
    } else if dy > -r {
        lit_step(lit_before(r, opq, dx, dy - 1), r, opq, dx, dy - 1)
    } else if dx > -r {
        lit_before(r, opq, dx - 1, r + 1)
    } else {
        lit_after_passes(r, opq)
    }
}

/// The lit cells after the boundary pass.
pub open spec fn lit_final(r: int, opq: spec_fn(int, int) -> bool) -> spec_fn(int, int) -> bool {
    if r < 0 {
        lit_after_passes(r, opq)
    } else {
        lit_before(r, opq, r, r + 1)
    }
}

/// Whether world tile `(x, y)` is visible from `(cx, cy)` within `r`, given the answers
/// `blocks` of the sight-blocking callback.
pub open spec fn fov_visible(level: Level, cx: int, cy: int, r: int, blocks: spec_fn(int, int) -> bool, x: int, y: int) -> bool {
    in_grid(r, x - cx, y - cy) && lit_final(r, sight_opaque(level, cx, cy, blocks))(x - cx, y - cy)
}

pub proof fn lemma_idx_bounds(dx: int, dy: int)
    requires
        -20 <= dx <= 20,
        -20 <= dy <= 20,
    ensures
        0 <= spec_idx(dx, dy) < 1681,
{
    assert(0 <= (dy + 20) * 41 <= 40 * 41) by (nonlinear_arith)
        requires
            0 <= dy + 20 <= 40,
    ;
}

pub proof fn lemma_idx_inj(a: int, b: int, c: int, d: int)
    requires
        -20 <= a <= 20,
        -20 <= b <= 20,
        -20 <= c <= 20,
        -20 <= d <= 20,
        spec_idx(a, b) == spec_idx(c, d),
    ensures
        a == c,
        b == d,
{
    assert(b == d) by (nonlinear_arith)
        requires
            -20 <= a <= 20,
            -20 <= c <= 20,
            (b + 20) * 41 + (a + 20) == (d + 20) * 41 + (c + 20),
    ;
}

pub proof fn lemma_mask_idx_bounds(dx: int, dy: int)
    requires
        -21 <= dx <= 21,
        -21 <= dy <= 21,
    ensures
        0 <= mask_idx(dx, dy) < 1849,
{
    assert(0 <= (dy + 21) * 43 <= 42 * 43) by (nonlinear_arith)
        requires
            0 <= dy + 21 <= 42,
    ;
}

fn abs_i32(v: i32) -> (a: i32)
    requires
        v > i32::MIN,
    ensures
        a == abs(v as int),
{
    if v < 0 { -v } else { v }
}

fn fov_idx(dx: i32, dy: i32) -> (i: usize)
    requires
        -20 <= dx <= 20,
        -20 <= dy <= 20,
    ensures
        i == spec_idx(dx as int, dy as int),
        i < 1681,
{
    proof {
        lemma_idx_bounds(dx as int, dy as int);
    }
    (dy + FOV_MAX_RADIUS) as usize * FOV_SIDE + (dx + FOV_MAX_RADIUS) as usize
}

fn mask_index(dx: i32, dy: i32) -> (i: usize)
    requires
        -21 <= dx <= 21,
        -21 <= dy <= 21,
    ensures
        i == mask_idx(dx as int, dy as int),
        i < 1849,
{
    proof {
        lemma_mask_idx_bounds(dx as int, dy as int);
    }
    (dy + 21) as usize * MASK_SIDE + (dx + 21) as usize
}

} // verus!

verus! {

/// Visibility window left by the last [`compute_fov`].
pub struct FovGrid {
    /// World tile the window is centered on.
    origin: (i32, i32),
    /// Half-extent: tiles farther than `r` on either axis are never visible.
    r: i32,
    visible: Vec<bool>,
}

impl FovGrid {
    #[verifier::type_invariant]
    spec fn inv(self) -> bool {
        self.visible@.len() == FOV_CELLS && self.r <= FOV_MAX_RADIUS
    }

    /// The viewer position of the last computation.
    pub closed spec fn origin(&self) -> (int, int) {
        (self.origin.0 as int, self.origin.1 as int)
    }

    /// The radius of the last computation (negative before the first one).
    pub closed spec fn radius(&self) -> int {
        self.r as int
    }

    /// Whether world tile `(x, y)` is visible.
    pub closed spec fn visible_at(&self, x: int, y: int) -> bool {
        let dx = x - self.origin.0;
        let dy = y - self.origin.1;
        in_grid(self.r as int, dx, dy) && self.visible@[spec_idx(dx, dy)]
    }

    /// A query at `(x, y)` stays within `i32` arithmetic.
    pub open spec fn query_fits(&self, x: usize, y: usize) -> bool {
        i32::MIN < (x as i32) - self.origin().0 <= i32::MAX && i32::MIN < (y as i32) - self.origin().1
            <= i32::MAX
    }

    pub fn new() -> (fov: Self)
        ensures
            fov.origin() == (0int, 0int),
            fov.radius() == -1,
            forall|x: int, y: int| !#[trigger] fov.visible_at(x, y),
    {
        let mut visible: Vec<bool> = Vec::new();
        let mut i: usize = 0;
        while i < FOV_CELLS
            invariant
                i <= FOV_CELLS,
                visible@.len() == i,
            decreases FOV_CELLS - i,
        {
            visible.push(false);
            i = i + 1;
        }
        FovGrid { origin: (0, 0), r: -1, visible }
    }

    pub fn is_visible(&self, x: usize, y: usize) -> (b: bool)
        requires
            self.query_fits(x, y),
        ensures
            b == self.visible_at(x as i32 as int, y as i32 as int),
    {
        proof {
            use_type_invariant(self);
        }
        let dx = x as i32 - self.origin.0;
        let dy = y as i32 - self.origin.1;
        if abs_i32(dx) <= self.r && abs_i32(dy) <= self.r {
            self.visible[fov_idx(dx, dy)]
        } else {
            false
        }
    }
}

impl Default for FovGrid {
    fn default() -> (fov: Self)
        ensures
            fov.origin() == (0int, 0int),
            fov.radius() == -1,
            forall|x: int, y: int| !#[trigger] fov.visible_at(x, y),
    {
        Self::new()
    }
}

/// The answers recorded in the blocking window, as a function of world coordinates (no answer,
/// `false`, outside it).
pub open spec fn mask_fn(mask: Seq<bool>, cx: int, cy: int) -> spec_fn(int, int) -> bool {
    |x: int, y: int| in_grid(21, x - cx, y - cy) && mask[mask_idx(x - cx, y - cy)]
}

/// Every answer of `blocks` is one that `f` can give, on the window of half-extent `w`.
pub open spec fn answers_of<F: Fn(i32, i32) -> bool>(f: F, cx: int, cy: int, w: int, blocks: spec_fn(int, int) -> bool) -> bool {
    forall|x: i32, y: i32| in_grid(w, x - cx, y - cy) ==> call_ensures(f, (x, y), #[trigger] blocks(x as int, y as int))
}

fn is_opaque(level: &Level, cx: i32, cy: i32, mask: &Vec<bool>, dx: i32, dy: i32) -> (b: bool)
    requires
        level.wf(),
        mask@.len() == MASK_CELLS,
        -21 <= dx <= 21,
        -21 <= dy <= 21,
        crate::level::i32_range(cx + dx),
        crate::level::i32_range(cy + dy),
    ensures
        b == sight_opaque(*level, cx as int, cy as int, mask_fn(mask@, cx as int, cy as int))(dx as int, dy as int),
{
    if dx == 0 && dy == 0 {
        return false;
    }
    match level.get(cx + dx, cy + dy) {
        None => true,
        Some(t) => t.opaque() || mask[mask_index(dx, dy)],
    }
}

} // verus!

verus! {

/// Value the diagonal pass leaves at an offset: 0 unreached, -1 reached but opaque,
/// otherwise its Chebyshev distance.
pub open spec fn diag_val(r: int, opq: spec_fn(int, int) -> bool, x: int, y: int) -> int {
    if diag_reached(r, opq, x, y) {
        if opq(x, y) { -1 } else { cheb(x, y) }
    } else {
        0
    }
}

/// Value the straight pass leaves at an offset.
pub open spec fn straight_val(r: int, opq: spec_fn(int, int) -> bool, x: int, y: int) -> int {
    if straight_reached(r, opq, x, y) {
        if opq(x, y) { -1 } else { manh(x, y) }
    } else {
        0
    }
}

/// Scratch contents while the diagonal pass handles ring `k` and has scanned every offset
/// before `(xs, ys)` in row order.
pub open spec fn diag_state(r: int, opq: spec_fn(int, int) -> bool, k: int, xs: int, ys: int, x: int, y: int) -> int {
    if cheb(x, y) < k || (cheb(x, y) == k && (y < ys || (y == ys && x < xs))) {
        diag_val(r, opq, x, y)
    } else {
        0
    }
}

pub open spec fn straight_state(r: int, opq: spec_fn(int, int) -> bool, m: int, xs: int, ys: int, x: int, y: int) -> int {
    if manh(x, y) < m || (manh(x, y) == m && (y < ys || (y == ys && x < xs))) {
        straight_val(r, opq, x, y)
    } else {
        0
    }
}

proof fn lemma_diag_val_range(r: int, opq: spec_fn(int, int) -> bool, x: int, y: int)
    ensures
        diag_reached(r, opq, x, y) ==> cheb(x, y) >= 1,
        diag_val(r, opq, x, y) == 0 || diag_val(r, opq, x, y) == -1 || diag_val(r, opq, x, y) == cheb(x, y),
{
}

proof fn lemma_diag_neighbor(r: int, opq: spec_fn(int, int) -> bool, vis2: Seq<i32>, k: int, xs: int, ys: int, nx: int, ny: int)
    requires
        0 <= r <= 20,
        2 <= k <= r,
        vis2.len() == 1681,
        forall|x: int, y: int| in_grid(r, x, y) ==> vis2[spec_idx(x, y)] == #[trigger] diag_state(r, opq, k, xs, ys, x, y),
    ensures
        (in_grid(r, nx, ny) && vis2[spec_idx(nx, ny)] == k - 1) == diag_from(r, opq, nx, ny, k),
{
    if in_grid(r, nx, ny) {
        assert(vis2[spec_idx(nx, ny)] == diag_state(r, opq, k, xs, ys, nx, ny));
        lemma_diag_val_range(r, opq, nx, ny);
    }
}

/// Whether the in-grid neighbor `(nx, ny)` holds `d` in the scratch window.
fn neighbor_holds(vis: &Vec<i32>, r: i32, nx: i32, ny: i32, d: i32) -> (b: bool)
    requires
        vis@.len() == 1681,
        0 <= r <= 20,
        -21 <= nx <= 21,
        -21 <= ny <= 21,
    ensures
        b == (in_grid(r as int, nx as int, ny as int) && vis@[spec_idx(nx as int, ny as int)] == d),
{
    if nx >= -r && nx <= r && ny >= -r && ny <= r {
        vis[fov_idx(nx, ny)] == d
    } else {
        false
    }
}

fn cheb_i32(dx: i32, dy: i32) -> (c: i32)
    requires
        -21 <= dx <= 21,
        -21 <= dy <= 21,
    ensures
        c == cheb(dx as int, dy as int),
{
    let ax = abs_i32(dx);
    let ay = abs_i32(dy);
    if ax >= ay { ax } else { ay }
}

fn manh_i32(dx: i32, dy: i32) -> (m: i32)
    requires
        -21 <= dx <= 21,
        -21 <= dy <= 21,
    ensures
        m == manh(dx as int, dy as int),
{
    abs_i32(dx) + abs_i32(dy)
}

fn zero_window() -> (v: Vec<i32>)
    ensures
        v@.len() == 1681,
        forall|i: int| 0 <= i < 1681 ==> v@[i] == 0,
{
    let mut v: Vec<i32> = Vec::new();
    let mut i: usize = 0;
    while i < FOV_CELLS
        invariant
            i <= FOV_CELLS,
            v@.len() == i,
            forall|j: int| 0 <= j < i ==> v@[j] == 0,
        decreases FOV_CELLS - i,
    {
        v.push(0);
        i = i + 1;
    }
    v
}

/// Diagonal pass over rings 1..=r.
#[verifier::rlimit(50)]
fn diag_pass(level: &Level, cx: i32, cy: i32, mask: &Vec<bool>, r: i32) -> (vis2: Vec<i32>)
    requires
        level.wf(),
        mask@.len() == MASK_CELLS,
        0 <= r <= 20,
        crate::level::i32_range(cx - r - 1) && crate::level::i32_range(cx + r + 1),
        crate::level::i32_range(cy - r - 1) && crate::level::i32_range(cy + r + 1),
    ensures
        vis2@.len() == 1681,
        forall|x: int, y: int| in_grid(r as int, x, y) ==> vis2@[spec_idx(x, y)] == #[trigger] diag_val(
            r as int,
            sight_opaque(*level, cx as int, cy as int, mask_fn(mask@, cx as int, cy as int)),
            x,
            y,
        ),
{
    let ghost opq = sight_opaque(*level, cx as int, cy as int, mask_fn(mask@, cx as int, cy as int));
    let ghost ri = r as int;
    let mut vis2 = zero_window();
    proof {
        assert forall|x: int, y: int| in_grid(ri, x, y) implies vis2@[spec_idx(x, y)] == #[trigger] diag_state(ri, opq, 1, -ri, -ri, x, y) by {
            lemma_idx_bounds(x, y);
            if cheb(x, y) < 1 {
                assert(!diag_reached(ri, opq, x, y));
            }
        }
    }
    let mut k: i32 = 1;
    while k <= r
        invariant
            level.wf(),
            mask@.len() == MASK_CELLS,
            0 <= r <= 20,
            ri == r,
            1 <= k <= r + 1,
            crate::level::i32_range(cx - r - 1) && crate::level::i32_range(cx + r + 1),
            crate::level::i32_range(cy - r - 1) && crate::level::i32_range(cy + r + 1),
            opq == sight_opaque(*level, cx as int, cy as int, mask_fn(mask@, cx as int, cy as int)),
            vis2@.len() == 1681,
            forall|x: int, y: int| in_grid(ri, x, y) ==> vis2@[spec_idx(x, y)] == #[trigger] diag_state(ri, opq, k as int, -ri, -ri, x, y),
        decreases r + 1 - k,
    {
        let mut dy: i32 = -r;
        while dy <= r
            invariant
                level.wf(),
                mask@.len() == MASK_CELLS,
                0 <= r <= 20,
                ri == r,
                1 <= k <= r,
                -r <= dy <= r + 1,
                crate::level::i32_range(cx - r - 1) && crate::level::i32_range(cx + r + 1),
                crate::level::i32_range(cy - r - 1) && crate::level::i32_range(cy + r + 1),
                opq == sight_opaque(*level, cx as int, cy as int, mask_fn(mask@, cx as int, cy as int)),
                vis2@.len() == 1681,
                forall|x: int, y: int| in_grid(ri, x, y) ==> vis2@[spec_idx(x, y)] == #[trigger] diag_state(ri, opq, k as int, -ri, dy as int, x, y),
            decreases r + 1 - dy,
        {
            let mut dx: i32 = -r;
            while dx <= r
                invariant
                    level.wf(),
                    mask@.len() == MASK_CELLS,
                    0 <= r <= 20,
                    ri == r,
                    1 <= k <= r,
                    -r <= dy <= r,
                    -r <= dx <= r + 1,
                    crate::level::i32_range(cx - r - 1) && crate::level::i32_range(cx + r + 1),
                    crate::level::i32_range(cy - r - 1) && crate::level::i32_range(cy + r + 1),
                    opq == sight_opaque(*level, cx as int, cy as int, mask_fn(mask@, cx as int, cy as int)),
                    vis2@.len() == 1681,
                    forall|x: int, y: int| in_grid(ri, x, y) ==> vis2@[spec_idx(x, y)] == #[trigger] diag_state(ri, opq, k as int, dx as int, dy as int, x, y),
                decreases r + 1 - dx,
            {
                if cheb_i32(dx, dy) == k {
                    let reached = if k == 1 {
                        true
                    } else {
                        proof {
                            lemma_diag_neighbor(ri, opq, vis2@, k as int, dx as int, dy as int, dx - 1, dy - 1);
                            lemma_diag_neighbor(ri, opq, vis2@, k as int, dx as int, dy as int, dx - 1, dy as int);
                            lemma_diag_neighbor(ri, opq, vis2@, k as int, dx as int, dy as int, dx - 1, dy + 1);
                            lemma_diag_neighbor(ri, opq, vis2@, k as int, dx as int, dy as int, dx as int, dy - 1);
                            lemma_diag_neighbor(ri, opq, vis2@, k as int, dx as int, dy as int, dx as int, dy + 1);
                            lemma_diag_neighbor(ri, opq, vis2@, k as int, dx as int, dy as int, dx + 1, dy - 1);
                            lemma_diag_neighbor(ri, opq, vis2@, k as int, dx as int, dy as int, dx + 1, dy as int);
                            lemma_diag_neighbor(ri, opq, vis2@, k as int, dx as int, dy as int, dx + 1, dy + 1);
                        }
                        neighbor_holds(&vis2, r, dx - 1, dy - 1, k - 1) || neighbor_holds(&vis2, r, dx - 1, dy, k - 1)
                            || neighbor_holds(&vis2, r, dx - 1, dy + 1, k - 1) || neighbor_holds(&vis2, r, dx, dy - 1, k - 1)
                            || neighbor_holds(&vis2, r, dx, dy + 1, k - 1) || neighbor_holds(&vis2, r, dx + 1, dy - 1, k - 1)
                            || neighbor_holds(&vis2, r, dx + 1, dy, k - 1) || neighbor_holds(&vis2, r, dx + 1, dy + 1, k - 1)
                    };
                    assert(reached == diag_reached(ri, opq, dx as int, dy as int));
                    if reached {
                        let v = if is_opaque(level, cx, cy, mask, dx, dy) { -1 } else { k };
                        let gi = fov_idx(dx, dy);
                        let ghost before = vis2@;
                        vis2[gi] = v;
                        proof {
                            assert forall|x: int, y: int| in_grid(ri, x, y) implies vis2@[spec_idx(x, y)] == #[trigger] diag_state(ri, opq, k as int, dx + 1, dy as int, x, y) by {
                                lemma_idx_bounds(x, y);
                                if x != dx || y != dy {
                                    if spec_idx(x, y) == gi {
                                        lemma_idx_inj(x, y, dx as int, dy as int);
                                    }
                                    assert(before[spec_idx(x, y)] == diag_state(ri, opq, k as int, dx as int, dy as int, x, y));
                                }
                            }
                        }
                    } else {
                        proof {
                            assert forall|x: int, y: int| in_grid(ri, x, y) implies vis2@[spec_idx(x, y)] == #[trigger] diag_state(ri, opq, k as int, dx + 1, dy as int, x, y) by {
                                assert(vis2@[spec_idx(x, y)] == diag_state(ri, opq, k as int, dx as int, dy as int, x, y));
                            }
                        }
                    }
                } else {
                    proof {
                        assert forall|x: int, y: int| in_grid(ri, x, y) implies vis2@[spec_idx(x, y)] == #[trigger] diag_state(ri, opq, k as int, dx + 1, dy as int, x, y) by {
                            assert(vis2@[spec_idx(x, y)] == diag_state(ri, opq, k as int, dx as int, dy as int, x, y));
                        }
                    }
                }
                dx = dx + 1;
            }
            proof {
                assert forall|x: int, y: int| in_grid(ri, x, y) implies vis2@[spec_idx(x, y)] == #[trigger] diag_state(ri, opq, k as int, -ri, dy + 1, x, y) by {
                    assert(vis2@[spec_idx(x, y)] == diag_state(ri, opq, k as int, ri + 1, dy as int, x, y));
                }
            }
            dy = dy + 1;
        }
        proof {
            assert forall|x: int, y: int| in_grid(ri, x, y) implies vis2@[spec_idx(x, y)] == #[trigger] diag_state(ri, opq, k + 1, -ri, -ri, x, y) by {
                assert(vis2@[spec_idx(x, y)] == diag_state(ri, opq, k as int, -ri, ri + 1, x, y));
            }
        }
        k = k + 1;
    }
    proof {
        assert forall|x: int, y: int| in_grid(ri, x, y) implies vis2@[spec_idx(x, y)] == #[trigger] diag_val(ri, opq, x, y) by {
            assert(vis2@[spec_idx(x, y)] == diag_state(ri, opq, ri + 1, -ri, -ri, x, y));
            lemma_diag_val_range(ri, opq, x, y);
        }
    }
    vis2
}


proof fn lemma_straight_val_range(r: int, opq: spec_fn(int, int) -> bool, x: int, y: int)
    ensures
        straight_reached(r, opq, x, y) ==> manh(x, y) >= 1 && diag_reached(r, opq, x, y),
        straight_val(r, opq, x, y) == 0 || straight_val(r, opq, x, y) == -1 || straight_val(r, opq, x, y) == manh(x, y),
{
}

proof fn lemma_straight_neighbor(r: int, opq: spec_fn(int, int) -> bool, vis: Seq<i32>, m: int, xs: int, ys: int, nx: int, ny: int)
    requires
        0 <= r <= 20,
        2 <= m <= 2 * r,
        vis.len() == 1681,
        forall|x: int, y: int| in_grid(r, x, y) ==> vis[spec_idx(x, y)] == #[trigger] straight_state(r, opq, m, xs, ys, x, y),
    ensures
        (in_grid(r, nx, ny) && vis[spec_idx(nx, ny)] == m - 1) == straight_from(r, opq, nx, ny, m),
{
    if in_grid(r, nx, ny) {
        assert(vis[spec_idx(nx, ny)] == straight_state(r, opq, m, xs, ys, nx, ny));
        lemma_straight_val_range(r, opq, nx, ny);
    }
}

/// Straight pass over Manhattan shells 1..=2r, limited to offsets the diagonal pass reached.
#[verifier::rlimit(50)]
fn straight_pass(level: &Level, cx: i32, cy: i32, mask: &Vec<bool>, r: i32, vis2: &Vec<i32>) -> (vis: Vec<i32>)
    requires
        level.wf(),
        mask@.len() == MASK_CELLS,
        0 <= r <= 20,
        crate::level::i32_range(cx - r - 1) && crate::level::i32_range(cx + r + 1),
        crate::level::i32_range(cy - r - 1) && crate::level::i32_range(cy + r + 1),
        vis2@.len() == 1681,
        forall|x: int, y: int| in_grid(r as int, x, y) ==> vis2@[spec_idx(x, y)] == #[trigger] diag_val(
            r as int,
            sight_opaque(*level, cx as int, cy as int, mask_fn(mask@, cx as int, cy as int)),
            x,
            y,
        ),
    ensures
        vis@.len() == 1681,
        forall|x: int, y: int| in_grid(r as int, x, y) ==> vis@[spec_idx(x, y)] == #[trigger] straight_val(
            r as int,
            sight_opaque(*level, cx as int, cy as int, mask_fn(mask@, cx as int, cy as int)),
            x,
            y,
        ),
{
    let ghost opq = sight_opaque(*level, cx as int, cy as int, mask_fn(mask@, cx as int, cy as int));
    let ghost ri = r as int;
    let mut vis = zero_window();
    proof {
        assert forall|x: int, y: int| in_grid(ri, x, y) implies vis@[spec_idx(x, y)] == #[trigger] straight_state(ri, opq, 1, -ri, -ri, x, y) by {
            lemma_idx_bounds(x, y);
            if cheb(x, y) < 1 {
                assert(!diag_reached(ri, opq, x, y));
            }
        }
    }
    let mut k: i32 = 1;
    while k <= 2 * r
        invariant
            level.wf(),
            mask@.len() == MASK_CELLS,
            0 <= r <= 20,
            ri == r,
            1 <= k <= 2 * r + 1,
            crate::level::i32_range(cx - r - 1) && crate::level::i32_range(cx + r + 1),
            crate::level::i32_range(cy - r - 1) && crate::level::i32_range(cy + r + 1),
            opq == sight_opaque(*level, cx as int, cy as int, mask_fn(mask@, cx as int, cy as int)),
            vis@.len() == 1681,
            vis2@.len() == 1681,
            forall|x: int, y: int| in_grid(ri, x, y) ==> vis2@[spec_idx(x, y)] == #[trigger] diag_val(ri, opq, x, y),
            forall|x: int, y: int| in_grid(ri, x, y) ==> vis@[spec_idx(x, y)] == #[trigger] straight_state(ri, opq, k as int, -ri, -ri, x, y),
        decreases 2 * r + 1 - k,
    {
        let mut dy: i32 = -r;
        while dy <= r
            invariant
                level.wf(),
                mask@.len() == MASK_CELLS,
                0 <= r <= 20,
                ri == r,
                1 <= k <= 2 * r,
                -r <= dy <= r + 1,
                crate::level::i32_range(cx - r - 1) && crate::level::i32_range(cx + r + 1),
                crate::level::i32_range(cy - r - 1) && crate::level::i32_range(cy + r + 1),
                opq == sight_opaque(*level, cx as int, cy as int, mask_fn(mask@, cx as int, cy as int)),
                vis@.len() == 1681,
            vis2@.len() == 1681,
            forall|x: int, y: int| in_grid(ri, x, y) ==> vis2@[spec_idx(x, y)] == #[trigger] diag_val(ri, opq, x, y),
                forall|x: int, y: int| in_grid(ri, x, y) ==> vis@[spec_idx(x, y)] == #[trigger] straight_state(ri, opq, k as int, -ri, dy as int, x, y),
            decreases r + 1 - dy,
        {
            let mut dx: i32 = -r;
            while dx <= r
                invariant
                    level.wf(),
                    mask@.len() == MASK_CELLS,
                    0 <= r <= 20,
                    ri == r,
                    1 <= k <= 2 * r,
                    -r <= dy <= r,
                    -r <= dx <= r + 1,
                    crate::level::i32_range(cx - r - 1) && crate::level::i32_range(cx + r + 1),
                    crate::level::i32_range(cy - r - 1) && crate::level::i32_range(cy + r + 1),
                    opq == sight_opaque(*level, cx as int, cy as int, mask_fn(mask@, cx as int, cy as int)),
                    vis@.len() == 1681,
            vis2@.len() == 1681,
            forall|x: int, y: int| in_grid(ri, x, y) ==> vis2@[spec_idx(x, y)] == #[trigger] diag_val(ri, opq, x, y),
                    forall|x: int, y: int| in_grid(ri, x, y) ==> vis@[spec_idx(x, y)] == #[trigger] straight_state(ri, opq, k as int, dx as int, dy as int, x, y),
                decreases r + 1 - dx,
            {
                if manh_i32(dx, dy) == k && vis2[fov_idx(dx, dy)] != 0 {
                    let reached = if k == 1 {
                        true
                    } else {
                        proof {
                            lemma_straight_neighbor(ri, opq, vis@, k as int, dx as int, dy as int, dx - 1, dy - 1);
                            lemma_straight_neighbor(ri, opq, vis@, k as int, dx as int, dy as int, dx - 1, dy as int);
                            lemma_straight_neighbor(ri, opq, vis@, k as int, dx as int, dy as int, dx - 1, dy + 1);
                            lemma_straight_neighbor(ri, opq, vis@, k as int, dx as int, dy as int, dx as int, dy - 1);
                            lemma_straight_neighbor(ri, opq, vis@, k as int, dx as int, dy as int, dx as int, dy + 1);
                            lemma_straight_neighbor(ri, opq, vis@, k as int, dx as int, dy as int, dx + 1, dy - 1);
                            lemma_straight_neighbor(ri, opq, vis@, k as int, dx as int, dy as int, dx + 1, dy as int);
                            lemma_straight_neighbor(ri, opq, vis@, k as int, dx as int, dy as int, dx + 1, dy + 1);
                        }
                        neighbor_holds(&vis, r, dx - 1, dy - 1, k - 1) || neighbor_holds(&vis, r, dx - 1, dy, k - 1)
                            || neighbor_holds(&vis, r, dx - 1, dy + 1, k - 1) || neighbor_holds(&vis, r, dx, dy - 1, k - 1)
                            || neighbor_holds(&vis, r, dx, dy + 1, k - 1) || neighbor_holds(&vis, r, dx + 1, dy - 1, k - 1)
                            || neighbor_holds(&vis, r, dx + 1, dy, k - 1) || neighbor_holds(&vis, r, dx + 1, dy + 1, k - 1)
                    };
                    proof {
                        lemma_idx_bounds(dx as int, dy as int);
                        assert(vis2@[spec_idx(dx as int, dy as int)] == diag_val(ri, opq, dx as int, dy as int));
                        lemma_diag_val_range(ri, opq, dx as int, dy as int);
                    }
                    assert(reached == straight_reached(ri, opq, dx as int, dy as int));
                    if reached {
                        let v = if is_opaque(level, cx, cy, mask, dx, dy) { -1 } else { k };
                        let gi = fov_idx(dx, dy);
                        let ghost before = vis@;
                        vis[gi] = v;
                        proof {
                            assert forall|x: int, y: int| in_grid(ri, x, y) implies vis@[spec_idx(x, y)] == #[trigger] straight_state(ri, opq, k as int, dx + 1, dy as int, x, y) by {
                                lemma_idx_bounds(x, y);
                                if x != dx || y != dy {
                                    if spec_idx(x, y) == gi {
                                        lemma_idx_inj(x, y, dx as int, dy as int);
                                    }
                                    assert(before[spec_idx(x, y)] == straight_state(ri, opq, k as int, dx as int, dy as int, x, y));
                                }
                            }
                        }
                    } else {
                        proof {
                            assert forall|x: int, y: int| in_grid(ri, x, y) implies vis@[spec_idx(x, y)] == #[trigger] straight_state(ri, opq, k as int, dx + 1, dy as int, x, y) by {
                                assert(vis@[spec_idx(x, y)] == straight_state(ri, opq, k as int, dx as int, dy as int, x, y));
                            }
                        }
                    }
                } else {
                    proof {
                        lemma_idx_bounds(dx as int, dy as int);
                        assert(vis2@[spec_idx(dx as int, dy as int)] == diag_val(ri, opq, dx as int, dy as int));
                        assert forall|x: int, y: int| in_grid(ri, x, y) implies vis@[spec_idx(x, y)] == #[trigger] straight_state(ri, opq, k as int, dx + 1, dy as int, x, y) by {
                            assert(vis@[spec_idx(x, y)] == straight_state(ri, opq, k as int, dx as int, dy as int, x, y));
                        }
                    }
                }
                dx = dx + 1;
            }
            proof {
                assert forall|x: int, y: int| in_grid(ri, x, y) implies vis@[spec_idx(x, y)] == #[trigger] straight_state(ri, opq, k as int, -ri, dy + 1, x, y) by {
                    assert(vis@[spec_idx(x, y)] == straight_state(ri, opq, k as int, ri + 1, dy as int, x, y));
                }
            }
            dy = dy + 1;
        }
        proof {
            assert forall|x: int, y: int| in_grid(ri, x, y) implies vis@[spec_idx(x, y)] == #[trigger] straight_state(ri, opq, k + 1, -ri, -ri, x, y) by {
                assert(vis@[spec_idx(x, y)] == straight_state(ri, opq, k as int, -ri, ri + 1, x, y));
            }
        }
        k = k + 1;
    }
    proof {
        assert forall|x: int, y: int| in_grid(ri, x, y) implies vis@[spec_idx(x, y)] == #[trigger] straight_val(ri, opq, x, y) by {
            assert(vis@[spec_idx(x, y)] == straight_state(ri, opq, 2 * ri + 1, -ri, -ri, x, y));
            lemma_straight_val_range(ri, opq, x, y);
        }
    }
    vis
}

} // verus!

verus! {

/// The lit cells recorded in a scratch window.
pub open spec fn vis_lit(vis: Seq<i32>) -> spec_fn(int, int) -> bool {
    |x: int, y: int| vis[spec_idx(x, y)] != 0
}

proof fn lemma_wall_face_agree(a: spec_fn(int, int) -> bool, b: spec_fn(int, int) -> bool, r: int, opq: spec_fn(int, int) -> bool, x: int, y: int)
    requires
        in_grid(r, x, y),
        forall|u: int, v: int| in_grid(r, u, v) ==> #[trigger] a(u, v) == b(u, v),
    ensures
        wall_face(a, r, opq, x, y) == wall_face(b, r, opq, x, y),
{
    assert(a(x, y) == b(x, y));
    assert(lit_in(a, r, x + 1, y) == lit_in(b, r, x + 1, y));
    assert(lit_in(a, r, x - 1, y) == lit_in(b, r, x - 1, y));
    assert(lit_in(a, r, x, y + 1) == lit_in(b, r, x, y + 1));
    assert(lit_in(a, r, x, y - 1) == lit_in(b, r, x, y - 1));
    assert(lit_in(a, r, x + 1, y + 1) == lit_in(b, r, x + 1, y + 1));
    assert(lit_in(a, r, x + 1, y - 1) == lit_in(b, r, x + 1, y - 1));
    assert(lit_in(a, r, x - 1, y + 1) == lit_in(b, r, x - 1, y + 1));
    assert(lit_in(a, r, x - 1, y - 1) == lit_in(b, r, x - 1, y - 1));
}

/// Whether the in-grid offset `(nx, ny)` is lit in the scratch window.
fn lit_at(vis: &Vec<i32>, r: i32, nx: i32, ny: i32) -> (b: bool)
    requires
        vis@.len() == 1681,
        0 <= r <= 20,
        -21 <= nx <= 21,
        -21 <= ny <= 21,
    ensures
        b == lit_in(vis_lit(vis@), r as int, nx as int, ny as int),
{
    if nx >= -r && nx <= r && ny >= -r && ny <= r {
        vis[fov_idx(nx, ny)] != 0
    } else {
        false
    }
}

fn corner_hit(level: &Level, cx: i32, cy: i32, mask: &Vec<bool>, vis: &Vec<i32>, r: i32, dx: i32, dy: i32, cdx: i32, cdy: i32) -> (b: bool)
    requires
        level.wf(),
        mask@.len() == MASK_CELLS,
        vis@.len() == 1681,
        0 <= r <= 20,
        in_grid(r as int, dx as int, dy as int),
        -1 <= cdx <= 1,
        -1 <= cdy <= 1,
        crate::level::i32_range(cx - r - 1) && crate::level::i32_range(cx + r + 1),
        crate::level::i32_range(cy - r - 1) && crate::level::i32_range(cy + r + 1),
    ensures
        b == corner_face(vis_lit(vis@), r as int, sight_opaque(*level, cx as int, cy as int, mask_fn(mask@, cx as int, cy as int)), dx as int, dy as int, cdx as int, cdy as int),
{
    lit_at(vis, r, dx + cdx, dy + cdy) && lit_at(vis, r, dx + cdx, dy) && lit_at(vis, r, dx, dy + cdy)
        && is_opaque(level, cx, cy, mask, dx + cdx, dy) && is_opaque(level, cx, cy, mask, dx, dy + cdy)
        && !is_opaque(level, cx, cy, mask, dx + cdx, dy + cdy)
}

/// Boundary pass: reveal opaque tiles adjacent to visible areas, scanning column by column.
#[verifier::rlimit(50)]
fn boundary_pass(level: &Level, cx: i32, cy: i32, mask: &Vec<bool>, r: i32, vis: &mut Vec<i32>)
    requires
        level.wf(),
        mask@.len() == MASK_CELLS,
        0 <= r <= 20,
        crate::level::i32_range(cx - r - 1) && crate::level::i32_range(cx + r + 1),
        crate::level::i32_range(cy - r - 1) && crate::level::i32_range(cy + r + 1),
        old(vis)@.len() == 1681,
        forall|x: int, y: int| in_grid(r as int, x, y) ==> #[trigger] vis_lit(old(vis)@)(x, y) == lit_after_passes(
            r as int,
            sight_opaque(*level, cx as int, cy as int, mask_fn(mask@, cx as int, cy as int)),
        )(x, y),
    ensures
        final(vis)@.len() == 1681,
        forall|x: int, y: int| in_grid(r as int, x, y) ==> #[trigger] vis_lit(final(vis)@)(x, y) == lit_final(
            r as int,
            sight_opaque(*level, cx as int, cy as int, mask_fn(mask@, cx as int, cy as int)),
        )(x, y),
{
    let ghost opq = sight_opaque(*level, cx as int, cy as int, mask_fn(mask@, cx as int, cy as int));
    let ghost ri = r as int;
    let mut dx: i32 = -r;
    while dx <= r
        invariant
            level.wf(),
            mask@.len() == MASK_CELLS,
            0 <= r <= 20,
            ri == r,
            -r <= dx <= r + 1,
            crate::level::i32_range(cx - r - 1) && crate::level::i32_range(cx + r + 1),
            crate::level::i32_range(cy - r - 1) && crate::level::i32_range(cy + r + 1),
            opq == sight_opaque(*level, cx as int, cy as int, mask_fn(mask@, cx as int, cy as int)),
            vis@.len() == 1681,
            forall|x: int, y: int| in_grid(ri, x, y) ==> #[trigger] vis_lit(vis@)(x, y) == lit_before(ri, opq, dx as int, -ri)(x, y),
        decreases r + 1 - dx,
    {
        let mut dy: i32 = -r;
        while dy <= r
            invariant
                level.wf(),
                mask@.len() == MASK_CELLS,
                0 <= r <= 20,
                ri == r,
                -r <= dx <= r,
                -r <= dy <= r + 1,
                crate::level::i32_range(cx - r - 1) && crate::level::i32_range(cx + r + 1),
                crate::level::i32_range(cy - r - 1) && crate::level::i32_range(cy + r + 1),
                opq == sight_opaque(*level, cx as int, cy as int, mask_fn(mask@, cx as int, cy as int)),
                vis@.len() == 1681,
                forall|x: int, y: int| in_grid(ri, x, y) ==> #[trigger] vis_lit(vis@)(x, y) == lit_before(ri, opq, dx as int, dy as int)(x, y),
            decreases r + 1 - dy,
        {
            let ghost prev = lit_before(ri, opq, dx as int, dy as int);
            let ghost before = vis@;
            let gi = fov_idx(dx, dy);
            proof {
                lemma_wall_face_agree(vis_lit(vis@), prev, ri, opq, dx as int, dy as int);
                assert(lit_before(ri, opq, dx as int, dy + 1) == lit_step(prev, ri, opq, dx as int, dy as int));
            }
            let mut hit = false;
            if vis[gi] == 0 && is_opaque(level, cx, cy, mask, dx, dy) {
                let wall = (lit_at(vis, r, dx + 1, dy) && lit_at(vis, r, dx - 1, dy)) || (lit_at(vis, r, dx, dy + 1) && lit_at(vis, r, dx, dy - 1));
                hit = wall || corner_hit(level, cx, cy, mask, vis, r, dx, dy, -1, -1)
                    || corner_hit(level, cx, cy, mask, vis, r, dx, dy, -1, 1)
                    || corner_hit(level, cx, cy, mask, vis, r, dx, dy, 1, -1)
                    || corner_hit(level, cx, cy, mask, vis, r, dx, dy, 1, 1);
                if hit {
                    vis[gi] = -1;
                }
            }
            proof {
                assert(hit == wall_face(vis_lit(before), ri, opq, dx as int, dy as int));
                assert forall|x: int, y: int| in_grid(ri, x, y) implies #[trigger] vis_lit(vis@)(x, y) == lit_before(ri, opq, dx as int, dy + 1)(x, y) by {
                    lemma_idx_bounds(x, y);
                    assert(vis_lit(before)(x, y) == prev(x, y));
                    if x != dx || y != dy {
                        if spec_idx(x, y) == gi {
                            lemma_idx_inj(x, y, dx as int, dy as int);
                        }
                    }
                }
            }
            dy = dy + 1;
        }
        proof {
            assert(lit_before(ri, opq, dx + 1, -ri) == lit_before(ri, opq, dx as int, ri + 1));
        }
        dx = dx + 1;
    }
}

} // verus!

verus! {

pub proof fn lemma_mask_idx_inj(a: int, b: int, c: int, d: int)
    requires
        -21 <= a <= 21,
        -21 <= b <= 21,
        -21 <= c <= 21,
        -21 <= d <= 21,
        mask_idx(a, b) == mask_idx(c, d),
    ensures
        a == c,
        b == d,
{
    assert(b == d) by (nonlinear_arith)
        requires
            -21 <= a <= 21,
            -21 <= c <= 21,
            (b + 21) * 43 + (a + 21) == (d + 21) * 43 + (c + 21),
    ;
}

/// Ask `blocks` about every tile within `w` of `(cx, cy)` (nothing when `w < 0`).
fn build_mask(blocks: &impl Fn(i32, i32) -> bool, cx: i32, cy: i32, w: i32) -> (mask: Vec<bool>)
    requires
        -1 <= w <= 21,
        w >= 0 ==> crate::level::i32_range(cx - w) && crate::level::i32_range(cx + w)
            && crate::level::i32_range(cy - w) && crate::level::i32_range(cy + w),
        forall|x: i32, y: i32| call_requires(*blocks, (x, y)),
    ensures
        mask@.len() == MASK_CELLS,
        answers_of(*blocks, cx as int, cy as int, w as int, mask_fn(mask@, cx as int, cy as int)),
        forall|x: int, y: int| !in_grid(w as int, x - cx, y - cy) ==> !#[trigger] mask_fn(mask@, cx as int, cy as int)(x, y),
{
    let mut mask: Vec<bool> = Vec::new();
    let mut dy: i32 = -21;
    while dy <= 21
        invariant
            -1 <= w <= 21,
            w >= 0 ==> crate::level::i32_range(cx - w) && crate::level::i32_range(cx + w)
                && crate::level::i32_range(cy - w) && crate::level::i32_range(cy + w),
            forall|x: i32, y: i32| call_requires(*blocks, (x, y)),
            -21 <= dy <= 22,
            mask@.len() == (dy + 21) * 43,
            forall|a: int, b: int| -21 <= a <= 21 && -21 <= b <= 21 && mask_idx(a, b) < mask@.len() && in_grid(w as int, a, b)
                ==> call_ensures(*blocks, ((cx + a) as i32, (cy + b) as i32), #[trigger] mask@[mask_idx(a, b)]),
            forall|a: int, b: int| -21 <= a <= 21 && -21 <= b <= 21 && mask_idx(a, b) < mask@.len() && !in_grid(w as int, a, b)
                ==> !#[trigger] mask@[mask_idx(a, b)],
        decreases 22 - dy,
    {
        let mut dx: i32 = -21;
        while dx <= 21
            invariant
                -1 <= w <= 21,
                w >= 0 ==> crate::level::i32_range(cx - w) && crate::level::i32_range(cx + w)
                    && crate::level::i32_range(cy - w) && crate::level::i32_range(cy + w),
                forall|x: i32, y: i32| call_requires(*blocks, (x, y)),
                -21 <= dy <= 21,
                -21 <= dx <= 22,
                mask@.len() == (dy + 21) * 43 + (dx + 21),
                forall|a: int, b: int| -21 <= a <= 21 && -21 <= b <= 21 && mask_idx(a, b) < mask@.len() && in_grid(w as int, a, b)
                    ==> call_ensures(*blocks, ((cx + a) as i32, (cy + b) as i32), #[trigger] mask@[mask_idx(a, b)]),
                forall|a: int, b: int| -21 <= a <= 21 && -21 <= b <= 21 && mask_idx(a, b) < mask@.len() && !in_grid(w as int, a, b)
                    ==> !#[trigger] mask@[mask_idx(a, b)],
            decreases 22 - dx,
        {
            let ghost len = mask@.len();
            if -w <= dx && dx <= w && -w <= dy && dy <= w {
                let answer = blocks(cx + dx, cy + dy);
                mask.push(answer);
            } else {
                mask.push(false);
            }
            proof {
                assert forall|a: int, b: int| -21 <= a <= 21 && -21 <= b <= 21 && mask_idx(a, b) < mask@.len() && in_grid(w as int, a, b)
                    implies call_ensures(*blocks, ((cx + a) as i32, (cy + b) as i32), #[trigger] mask@[mask_idx(a, b)]) by {
                    lemma_mask_idx_bounds(a, b);
                    if mask_idx(a, b) == len {
                        lemma_mask_idx_inj(a, b, dx as int, dy as int);
                    }
                }
                assert forall|a: int, b: int| -21 <= a <= 21 && -21 <= b <= 21 && mask_idx(a, b) < mask@.len() && !in_grid(w as int, a, b)
                    implies !#[trigger] mask@[mask_idx(a, b)] by {
                    lemma_mask_idx_bounds(a, b);
                    if mask_idx(a, b) == len {
                        lemma_mask_idx_inj(a, b, dx as int, dy as int);
                    }
                }
            }
            dx = dx + 1;
        }
        dy = dy + 1;
    }
    proof {
        assert forall|x: i32, y: i32| in_grid(w as int, x - cx, y - cy) implies call_ensures(*blocks, (x, y), #[trigger] mask_fn(mask@, cx as int, cy as int)(x as int, y as int)) by {
            lemma_mask_idx_bounds(x - cx, y - cy);
            assert(((cx + (x - cx)) as i32, (cy + (y - cy)) as i32) == (x, y));
        }
        assert forall|x: int, y: int| !in_grid(w as int, x - cx, y - cy) implies !#[trigger] mask_fn(mask@, cx as int, cy as int)(x, y) by {
            if in_grid(21, x - cx, y - cy) {
                lemma_mask_idx_bounds(x - cx, y - cy);
            }
        }
    }
    mask
}

/// The radius actually used for a requested `radius`.
pub open spec fn fov_radius(radius: i32) -> int {
    if radius < FOV_MAX_RADIUS { radius as int } else { FOV_MAX_RADIUS as int }
}

/// The window of callback answers a computation of `radius` relies on.
pub open spec fn fov_window(radius: i32) -> int {
    if fov_radius(radius) >= 0 { fov_radius(radius) + 1 } else { -1 }
}

/// The viewer at `(cx, cy)` with radius `radius` keeps every offset the computation
/// examines within `i32`.
pub open spec fn fov_fits(cx: i32, cy: i32, radius: i32) -> bool {
    &&& radius >= i32::MIN / 2
    &&& fov_radius(radius) >= 0 ==> crate::level::i32_range(cx - fov_radius(radius) - 1)
        && crate::level::i32_range(cx + fov_radius(radius) + 1) && crate::level::i32_range(
        cy - fov_radius(radius) - 1,
    ) && crate::level::i32_range(cy + fov_radius(radius) + 1)
}

/// Compute FOV from (cx, cy) with the given radius on the given level.
///
/// `blocks_sight(x, y)` marks extra sight blockers (such as closed doors) on top of
/// opaque tiles; it is asked once about each tile within one step of the window.
pub fn compute_fov(fov: &mut FovGrid, level: &Level, cx: i32, cy: i32, radius: i32, blocks_sight: impl Fn(i32, i32) -> bool)
    requires
        level.wf(),
        fov_fits(cx, cy, radius),
        forall|x: i32, y: i32| call_requires(blocks_sight, (x, y)),
    ensures
        final(fov).origin() == (cx as int, cy as int),
        final(fov).radius() == fov_radius(radius),
        exists|blocks: spec_fn(int, int) -> bool|
            #![trigger answers_of(blocks_sight, cx as int, cy as int, fov_window(radius), blocks)]
            answers_of(blocks_sight, cx as int, cy as int, fov_window(radius), blocks)
            && (forall|x: int, y: int| !in_grid(fov_window(radius), x - cx, y - cy) ==> !#[trigger] blocks(x, y))
            && forall|x: int, y: int| #[trigger] final(fov).visible_at(x, y) == fov_visible(
                *level,
                cx as int,
                cy as int,
                fov_radius(radius),
                blocks,
                x,
                y,
            ),
{
    let r = if radius < FOV_MAX_RADIUS { radius } else { FOV_MAX_RADIUS };
    let w = if r >= 0 { r + 1 } else { -1 };
    let mask = build_mask(&blocks_sight, cx, cy, w);
    let ghost blocks = mask_fn(mask@, cx as int, cy as int);
    let ghost opq = sight_opaque(*level, cx as int, cy as int, blocks);
    let ghost ri = r as int;
    let mut visible: Vec<bool> = Vec::new();
    if r >= 0 {
        let vis2 = diag_pass(level, cx, cy, &mask, r);
        let mut vis = straight_pass(level, cx, cy, &mask, r, &vis2);
        // Mark eye visible
        let eye = fov_idx(0, 0);
        vis[eye] = 1;
        proof {
            assert forall|x: int, y: int| in_grid(ri, x, y) implies #[trigger] vis_lit(vis@)(x, y) == lit_after_passes(ri, opq)(x, y) by {
                lemma_idx_bounds(x, y);
                if x != 0 || y != 0 {
                    if spec_idx(x, y) == eye {
                        lemma_idx_inj(x, y, 0, 0);
                    }
                    lemma_straight_val_range(ri, opq, x, y);
                }
            }
        }
        boundary_pass(level, cx, cy, &mask, r, &mut vis);
        // Transfer to the window
        let mut dy: i32 = -20;
        while dy <= 20
            invariant
                0 <= r <= 20,
                ri == r,
                -20 <= dy <= 21,
                vis@.len() == 1681,
                visible@.len() == (dy + 20) * 41,
                forall|x: int, y: int| -20 <= x <= 20 && -20 <= y <= 20 && spec_idx(x, y) < visible@.len()
                    ==> #[trigger] visible@[spec_idx(x, y)] == (in_grid(ri, x, y) && vis@[spec_idx(x, y)] != 0),
            decreases 21 - dy,
        {
            let mut dx: i32 = -20;
            while dx <= 20
                invariant
                    0 <= r <= 20,
                    ri == r,
                    -20 <= dy <= 20,
                    -20 <= dx <= 21,
                    vis@.len() == 1681,
                    visible@.len() == (dy + 20) * 41 + (dx + 20),
                    forall|x: int, y: int| -20 <= x <= 20 && -20 <= y <= 20 && spec_idx(x, y) < visible@.len()
                        ==> #[trigger] visible@[spec_idx(x, y)] == (in_grid(ri, x, y) && vis@[spec_idx(x, y)] != 0),
                decreases 21 - dx,
            {
                let ghost len = visible@.len();
                let lit = dx >= -r && dx <= r && dy >= -r && dy <= r && vis[fov_idx(dx, dy)] != 0;
                visible.push(lit);
                proof {
                    assert forall|x: int, y: int| -20 <= x <= 20 && -20 <= y <= 20 && spec_idx(x, y) < visible@.len()
                        implies #[trigger] visible@[spec_idx(x, y)] == (in_grid(ri, x, y) && vis@[spec_idx(x, y)] != 0) by {
                        lemma_idx_bounds(x, y);
                        if spec_idx(x, y) == len {
                            lemma_idx_inj(x, y, dx as int, dy as int);
                        }
                    }
                }
                dx = dx + 1;
            }
            dy = dy + 1;
        }
        proof {
            assert forall|x: int, y: int| in_grid(ri, x, y) implies #[trigger] visible@[spec_idx(x, y)] == lit_final(ri, opq)(x, y) by {
                lemma_idx_bounds(x, y);
                assert(vis_lit(vis@)(x, y) == lit_final(ri, opq)(x, y));
            }
        }
    } else {
        let mut i: usize = 0;
        while i < FOV_CELLS
            invariant
                i <= FOV_CELLS,
                visible@.len() == i,
            decreases FOV_CELLS - i,
        {
            visible.push(false);
            i = i + 1;
        }
    }
    *fov = FovGrid { origin: (cx, cy), r, visible };
    proof {
        assert forall|x: int, y: int| #[trigger] fov.visible_at(x, y) == fov_visible(*level, cx as int, cy as int, ri, blocks, x, y) by {
            if in_grid(ri, x - cx, y - cy) {
                assert(visible@[spec_idx(x - cx, y - cy)] == lit_final(ri, opq)(x - cx, y - cy));
            }
        }
        assert(answers_of(blocks_sight, cx as int, cy as int, fov_window(radius), blocks));
    }
}

} // verus!

verus! {

/// The boundary scan only adds lit cells, and only opaque ones.
proof fn lemma_lit_before_bounds(r: int, opq: spec_fn(int, int) -> bool, dx: int, dy: int, x: int, y: int)
    ensures
        lit_after_passes(r, opq)(x, y) ==> lit_before(r, opq, dx, dy)(x, y),
        lit_before(r, opq, dx, dy)(x, y) ==> lit_after_passes(r, opq)(x, y) || opq(x, y),
    decreases dx + r, dy + r,
{
    if dx < -r || dy < -r {
    } else if dy > -r {
        lemma_lit_before_bounds(r, opq, dx, dy - 1, x, y);
    } else if dx > -r {
        lemma_lit_before_bounds(r, opq, dx - 1, r + 1, x, y);
    }
}

/// The viewer always sees its own tile.
pub proof fn law_eye_visible(level: Level, cx: int, cy: int, r: int, blocks: spec_fn(int, int) -> bool)
    requires
        r >= 0,
    ensures
        fov_visible(level, cx, cy, r, blocks, cx, cy),
{
    lemma_lit_before_bounds(r, sight_opaque(level, cx, cy, blocks), r, r + 1, 0, 0);
}

/// Nothing farther than the radius (and so than `FOV_MAX_RADIUS`) on either axis is visible.
pub proof fn law_visibility_bounded(level: Level, cx: int, cy: int, radius: i32, blocks: spec_fn(int, int) -> bool, x: int, y: int)
    requires
        fov_visible(level, cx, cy, fov_radius(radius), blocks, x, y),
    ensures
        abs(x - cx) <= fov_radius(radius) <= FOV_MAX_RADIUS,
        abs(y - cy) <= fov_radius(radius),
{
}

/// A visible tile is the viewer's own, or was reached by both the diagonal and the straight
/// pass, or is a sight-blocking tile whose face is seen.
pub proof fn law_visible_reached_or_face(level: Level, cx: int, cy: int, r: int, blocks: spec_fn(int, int) -> bool, x: int, y: int)
    requires
        fov_visible(level, cx, cy, r, blocks, x, y),
    ensures
        (x == cx && y == cy) || (diag_reached(r, sight_opaque(level, cx, cy, blocks), x - cx, y - cy)
            && straight_reached(r, sight_opaque(level, cx, cy, blocks), x - cx, y - cy))
            || sight_opaque(level, cx, cy, blocks)(x - cx, y - cy),
{
    let opq = sight_opaque(level, cx, cy, blocks);
    if r >= 0 {
        lemma_lit_before_bounds(r, opq, r, r + 1, x - cx, y - cy);
    }
}

/// Recomputing in place leaves no stale visibility: two grids that `compute_fov` filled from the
/// same level, eye and radius, with callback answers that agree inside the window it asks about,
/// see exactly the same tiles, whatever either grid held before.
pub proof fn law_fov_recompute(g1: FovGrid, g2: FovGrid, level: Level, cx: i32, cy: i32, radius: i32,
    b1: spec_fn(int, int) -> bool, b2: spec_fn(int, int) -> bool)
    requires
        forall|x: int, y: int| in_grid(fov_window(radius), x - cx, y - cy) ==> #[trigger] b1(x, y) == b2(x, y),
        forall|x: int, y: int| !in_grid(fov_window(radius), x - cx, y - cy) ==> !#[trigger] b1(x, y),
        forall|x: int, y: int| !in_grid(fov_window(radius), x - cx, y - cy) ==> !#[trigger] b2(x, y),
        forall|x: int, y: int| #[trigger] g1.visible_at(x, y) == fov_visible(level, cx as int, cy as int, fov_radius(radius), b1, x, y),
        forall|x: int, y: int| #[trigger] g2.visible_at(x, y) == fov_visible(level, cx as int, cy as int, fov_radius(radius), b2, x, y),
    ensures
        forall|x: int, y: int| #[trigger] g1.visible_at(x, y) == g2.visible_at(x, y),
{
    assert forall|x: int, y: int| #[trigger] b1(x, y) == b2(x, y) by {
        if in_grid(fov_window(radius), x - cx, y - cy) {
        } else {
            assert(!b1(x, y) && !b2(x, y));
        }
    }
    assert(b1 =~= b2);
}

} // verus!
