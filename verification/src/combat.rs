//! Combat arithmetic and the flow field enemies use to close in on the player.
use vstd::prelude::*;
use std::collections::VecDeque;
use crate::level::Level;

verus! {

/// Damage left after armor: the attack minus the damage reduction, never below zero.
pub fn resolve_damage(attack: i32, dr: i32) -> (d: i32)
    requires
        crate::level::i32_range(attack - dr),
    ensures
        d == if attack - dr > 0 { attack - dr } else { 0 },
{
    let raw = attack - dr;
    if raw > 0 { raw } else { 0 }
}

/// Damage that an attack deals through `dr` points of damage reduction.
pub open spec fn damage(attack: int, dr: int) -> int {
    if attack - dr > 0 { attack - dr } else { 0 }
}

/// The player's melee hit on a target with `target_hp` hit points behind `target_dr` damage
/// reduction: the damage comes off the hit points, and the result says whether the target died.
pub fn bump_attack(attacker_attack: i32, target_hp: &mut i32, target_dr: i32) -> (died: bool)
    requires
        crate::level::i32_range(attacker_attack - target_dr),
        crate::level::i32_range(*old(target_hp) - damage(attacker_attack as int, target_dr as int)),
    ensures
        *final(target_hp) == *old(target_hp) - damage(attacker_attack as int, target_dr as int),
        died == (*final(target_hp) <= 0),
{
    let dmg = resolve_damage(attacker_attack, target_dr);
    *target_hp = *target_hp - dmg;
    *target_hp <= 0
}

pub open spec fn sign(v: int) -> int {
    if v > 0 { 1 } else if v < 0 { -1 } else { 0 }
}

fn signum_i32(v: i32) -> (s: i32)
    ensures
        s == sign(v as int),
{
    if v > 0 { 1 } else if v < 0 { -1 } else { 0 }
}

/// The king-move step from `(ex, ey)` toward `(px, py)`.
pub fn step_toward(ex: i32, ey: i32, px: i32, py: i32) -> (s: (i32, i32))
    requires
        crate::level::i32_range(px - ex),
        crate::level::i32_range(py - ey),
    ensures
        s == (sign(px - ex) as i32, sign(py - ey) as i32),
{
    (signum_i32(px - ex), signum_i32(py - ey))
}

pub open spec fn abs_int(v: int) -> int {
    if v < 0 { -v } else { v }
}

/// King-move (Chebyshev) distance.
pub open spec fn spec_chebyshev(a: (i32, i32), b: (i32, i32)) -> int {
    let dx = abs_int(a.0 - b.0);
    let dy = abs_int(a.1 - b.1);
    if dx >= dy { dx } else { dy }
}

pub fn chebyshev(a: (i32, i32), b: (i32, i32)) -> (d: i32)
    requires
        i32::MIN < a.0 - b.0 <= i32::MAX,
        i32::MIN < a.1 - b.1 <= i32::MAX,
    ensures
        d == spec_chebyshev(a, b),
{
    let dx = a.0 - b.0;
    let dy = a.1 - b.1;
    let ax = if dx < 0 { -dx } else { dx };
    let ay = if dy < 0 { -dy } else { dy };
    if ax >= ay { ax } else { ay }
}

/// Half-side of the flow-field window around its origin.
pub const FLOW_FIELD_RADIUS: i32 = 26;
pub const FLOW_SIDE: i32 = 53;
pub const FLOW_CELLS: usize = 2809;

/// The tile lies within the flow-field window around `origin`.
pub open spec fn in_flow_window(origin: (i32, i32), x: int, y: int) -> bool {
    -FLOW_FIELD_RADIUS <= x - origin.0 <= FLOW_FIELD_RADIUS && -FLOW_FIELD_RADIUS <= y - origin.1 <= FLOW_FIELD_RADIUS
}

pub open spec fn spec_flow_idx(origin: (i32, i32), x: int, y: int) -> int {
    (y - origin.1 + FLOW_FIELD_RADIUS) * FLOW_SIDE + (x - origin.0 + FLOW_FIELD_RADIUS)
}

pub proof fn lemma_flow_idx(origin: (i32, i32), x: int, y: int)
    requires
        in_flow_window(origin, x, y),
    ensures
        0 <= spec_flow_idx(origin, x, y) < FLOW_CELLS,
{
    let ly = y - origin.1 + 26;
    assert(0 <= ly * 53 <= 52 * 53) by (nonlinear_arith)
        requires
            0 <= ly <= 52,
    ;
}

pub proof fn lemma_flow_idx_inj(origin: (i32, i32), x: int, y: int, u: int, v: int)
    requires
        in_flow_window(origin, x, y),
        in_flow_window(origin, u, v),
        spec_flow_idx(origin, x, y) == spec_flow_idx(origin, u, v),
    ensures
        x == u,
        y == v,
{
    let a = x - origin.0 + 26;
    let b = y - origin.1 + 26;
    let c = u - origin.0 + 26;
    let d = v - origin.1 + 26;
    assert(b == d) by (nonlinear_arith)
        requires
            0 <= a <= 52,
            0 <= c <= 52,
            b * 53 + a == d * 53 + c,
    ;
}

/// Index into the dense window for a world tile, or `None` outside the window.
pub fn flow_idx(origin: (i32, i32), x: i32, y: i32) -> (i: Option<usize>)
    requires
        crate::level::i32_range(x - origin.0),
        crate::level::i32_range(y - origin.1),
        crate::level::i32_range(x - origin.0 + FLOW_FIELD_RADIUS),
        crate::level::i32_range(y - origin.1 + FLOW_FIELD_RADIUS),
    ensures
        i is Some <==> in_flow_window(origin, x as int, y as int),
        i matches Some(i) ==> i == spec_flow_idx(origin, x as int, y as int),
{
    let lx = x - origin.0 + FLOW_FIELD_RADIUS;
    let ly = y - origin.1 + FLOW_FIELD_RADIUS;
    if lx >= 0 && lx < FLOW_SIDE && ly >= 0 && ly < FLOW_SIDE {
        proof {
            lemma_flow_idx(origin, x as int, y as int);
        }
        Some((ly * FLOW_SIDE + lx) as usize)
    } else {
        None
    }
}

} // verus!

verus! {

/// The eight king-move directions, in the order the flow field explores them.
pub open spec fn flow_dir(k: int) -> (int, int) {
    if k == 0 { (-1, -1) }
    else if k == 1 { (0, -1) }
    else if k == 2 { (1, -1) }
    else if k == 3 { (-1, 0) }
    else if k == 4 { (1, 0) }
    else if k == 5 { (-1, 1) }
    else if k == 6 { (0, 1) }
    else { (1, 1) }
}

/// A step from `(x, y)` by `(dx, dy)` stays in the window, lands on a walkable tile, and, when
/// diagonal, does not squeeze between two unwalkable tiles.
pub open spec fn flow_move(level: Level, origin: (i32, i32), x: int, y: int, dx: int, dy: int) -> bool {
    &&& in_flow_window(origin, x + dx, y + dy)
    &&& level.spec_walkable(x + dx, y + dy)
    &&& (dx == 0 || dy == 0 || level.spec_walkable(x + dx, y) || level.spec_walkable(x, y + dy))
}

pub open spec fn is_set(field: Seq<Option<(i32, i32)>>, origin: (i32, i32), x: int, y: int) -> bool {
    field[spec_flow_idx(origin, x, y)] is Some
}

/// Every valid step out of `(x, y)` lands on a cell of the field.
pub open spec fn flow_closed(field: Seq<Option<(i32, i32)>>, level: Level, origin: (i32, i32), x: int, y: int) -> bool {
    forall|k: int| 0 <= k < 8 ==> #[trigger] flow_move(level, origin, x, y, flow_dir(k).0, flow_dir(k).1)
        ==> is_set(field, origin, x + flow_dir(k).0, y + flow_dir(k).1)
}

/// The field's link at `(x, y)` (a cell of the field other than the origin) points to an
/// adjacent cell of the field one step nearer the origin, from which `(x, y)` is a valid step.
pub open spec fn flow_link_ok(field: Seq<Option<(i32, i32)>>, dist: Seq<int>, level: Level, origin: (i32, i32), x: int, y: int) -> bool {
    match field[spec_flow_idx(origin, x, y)] {
        Some(p) => (x == origin.0 && y == origin.1 && p == origin) || {
            &&& !(x == origin.0 && y == origin.1)
            &&& in_flow_window(origin, p.0 as int, p.1 as int)
            &&& is_set(field, origin, p.0 as int, p.1 as int)
            &&& -1 <= x - p.0 <= 1 && -1 <= y - p.1 <= 1
            &&& flow_move(level, origin, p.0 as int, p.1 as int, x - p.0, y - p.1)
            &&& dist[spec_flow_idx(origin, x, y)] == dist[spec_flow_idx(origin, p.0 as int, p.1 as int)] + 1
        },
        None => true,
    }
}

/// No valid step out of `(x, y)` reaches a cell of the field more than one further from the origin.
pub open spec fn moves_within_one(field: Seq<Option<(i32, i32)>>, dist: Seq<int>, level: Level, origin: (i32, i32), x: int, y: int) -> bool {
    forall|m: int| 0 <= m < 8 && #[trigger] flow_move(level, origin, x, y, flow_dir(m).0, flow_dir(m).1)
        && is_set(field, origin, x + flow_dir(m).0, y + flow_dir(m).1)
        ==> dist[spec_flow_idx(origin, x + flow_dir(m).0, y + flow_dir(m).1)] <= dist[spec_flow_idx(origin, x, y)] + 1
}

/// A flow field toward `origin` over `level`: the origin links to itself at distance 0, every
/// other cell links one step nearer, a valid step never gains more than one (so each distance is
/// the fewest valid steps from the origin), and the cells form a set closed under valid steps (so
/// they hold every tile reachable from the origin inside the window).
pub open spec fn flow_field_ok(field: Seq<Option<(i32, i32)>>, dist: Seq<int>, level: Level, origin: (i32, i32)) -> bool {
    &&& field.len() == FLOW_CELLS
    &&& dist.len() == FLOW_CELLS
    &&& field[spec_flow_idx(origin, origin.0 as int, origin.1 as int)] == Some(origin)
    &&& dist[spec_flow_idx(origin, origin.0 as int, origin.1 as int)] == 0
    &&& forall|j: int| 0 <= j < FLOW_CELLS ==> #[trigger] dist[j] >= 0
    &&& forall|x: int, y: int| in_flow_window(origin, x, y) ==> #[trigger] flow_link_ok(field, dist, level, origin, x, y)
    &&& forall|x: int, y: int| in_flow_window(origin, x, y) && is_set(field, origin, x, y) ==> #[trigger] flow_closed(field, level, origin, x, y)
    &&& forall|x: int, y: int| in_flow_window(origin, x, y) && is_set(field, origin, x, y)
        ==> #[trigger] moves_within_one(field, dist, level, origin, x, y)
}

/// The distance of the `i`th queued cell.
pub open spec fn fqd(dist: Seq<int>, origin: (i32, i32), queue: Seq<(i32, i32)>, i: int) -> int {
    dist[spec_flow_idx(origin, queue[i].0 as int, queue[i].1 as int)]
}

/// The layers of the flow field in progress, at depth `d` (the distance of the cell being
/// expanded, or no more than the queue's front): queued distances ascend and lie in
/// `[d, d + 1]`, and every cell of the field neither queued nor being expanded is at most `d`
/// with no valid step out of it gaining more than one.
#[verifier::opaque]
pub open spec fn flow_order(field: Seq<Option<(i32, i32)>>, dist: Seq<int>, level: Level, origin: (i32, i32), queue: Seq<(i32, i32)>,
    cur: (int, int), expanding: bool, d: int) -> bool {
    &&& forall|i: int, j: int| #![trigger fqd(dist, origin, queue, i), fqd(dist, origin, queue, j)]
        0 <= i < j < queue.len() ==> fqd(dist, origin, queue, i) <= fqd(dist, origin, queue, j)
    &&& forall|i: int| 0 <= i < queue.len() ==> d <= #[trigger] fqd(dist, origin, queue, i) <= d + 1
    &&& expanding ==> dist[spec_flow_idx(origin, cur.0, cur.1)] == d
    &&& forall|x: int, y: int| in_flow_window(origin, x, y) && #[trigger] is_set(field, origin, x, y)
        ==> queue.contains((x as i32, y as i32)) || (expanding && x == cur.0 && y == cur.1)
            || (dist[spec_flow_idx(origin, x, y)] <= d && moves_within_one(field, dist, level, origin, x, y))
}

proof fn lemma_flow_order_pop(field: Seq<Option<(i32, i32)>>, dist: Seq<int>, level: Level, origin: (i32, i32), queue: Seq<(i32, i32)>, d: int)
    requires
        flow_order(field, dist, level, origin, queue, (0, 0), false, d),
        queue.len() > 0,
        flow_origin_fits(origin),
        forall|k: int| 0 <= k < queue.len() ==> in_flow_window(origin, #[trigger] queue[k].0 as int, queue[k].1 as int),
    ensures
        flow_order(field, dist, level, origin, queue.drop_first(), (queue[0].0 as int, queue[0].1 as int), true, fqd(dist, origin, queue, 0)),
        d <= fqd(dist, origin, queue, 0),
{
    reveal(flow_order);
    let q = queue.drop_first();
    let d2 = fqd(dist, origin, queue, 0);
    let c = (queue[0].0 as int, queue[0].1 as int);
    assert forall|i: int, j: int| 0 <= i < j < q.len() implies fqd(dist, origin, q, i) <= fqd(dist, origin, q, j) by {
        assert(q[i] == queue[i + 1] && q[j] == queue[j + 1]);
        assert(fqd(dist, origin, q, i) == fqd(dist, origin, queue, i + 1));
        assert(fqd(dist, origin, q, j) == fqd(dist, origin, queue, j + 1));
    }
    assert forall|i: int| 0 <= i < q.len() implies d2 <= #[trigger] fqd(dist, origin, q, i) <= d2 + 1 by {
        assert(q[i] == queue[i + 1]);
        assert(fqd(dist, origin, q, i) == fqd(dist, origin, queue, i + 1));
        assert(fqd(dist, origin, queue, 0) <= fqd(dist, origin, queue, i + 1));
    }
    assert forall|x: int, y: int| in_flow_window(origin, x, y) && #[trigger] is_set(field, origin, x, y)
        implies q.contains((x as i32, y as i32)) || (x == c.0 && y == c.1)
            || (dist[spec_flow_idx(origin, x, y)] <= d2 && moves_within_one(field, dist, level, origin, x, y)) by {
        if queue.contains((x as i32, y as i32)) {
            let m = choose|m: int| 0 <= m < queue.len() && queue[m] == (x as i32, y as i32);
            assert(in_flow_window(origin, queue[m].0 as int, queue[m].1 as int));
            if m == 0 {
                assert(x == c.0 && y == c.1);
            } else {
                assert(q[m - 1] == (x as i32, y as i32));
            }
        }
    }
}

#[verifier::spinoff_prover]
proof fn lemma_flow_order_visit(field: Seq<Option<(i32, i32)>>, dist: Seq<int>, level: Level, origin: (i32, i32), queue: Seq<(i32, i32)>,
    x: int, y: int, k: int, d: int, nfield: Seq<Option<(i32, i32)>>, ndist: Seq<int>, nq: Seq<(i32, i32)>)
    requires
        flow_order(field, dist, level, origin, queue, (x, y), true, d),
        flow_origin_fits(origin),
        field.len() == FLOW_CELLS,
        dist.len() == FLOW_CELLS,
        in_flow_window(origin, x, y),
        0 <= k < 8,
        in_flow_window(origin, x + flow_dir(k).0, y + flow_dir(k).1),
        !is_set(field, origin, x + flow_dir(k).0, y + flow_dir(k).1),
        forall|j: int| 0 <= j < queue.len() ==> in_flow_window(origin, #[trigger] queue[j].0 as int, queue[j].1 as int)
            && is_set(field, origin, queue[j].0 as int, queue[j].1 as int),
        forall|cx: int, cy: int| in_flow_window(origin, cx, cy) && is_set(field, origin, cx, cy) ==> queue.contains((cx as i32, cy as i32))
            || #[trigger] flow_closed(field, level, origin, cx, cy) || (cx == x && cy == y),
        nfield == field.update(spec_flow_idx(origin, x + flow_dir(k).0, y + flow_dir(k).1), Some((x as i32, y as i32))),
        ndist == dist.update(spec_flow_idx(origin, x + flow_dir(k).0, y + flow_dir(k).1), d + 1),
        nq == queue.push(((x + flow_dir(k).0) as i32, (y + flow_dir(k).1) as i32)),
    ensures
        flow_order(nfield, ndist, level, origin, nq, (x, y), true, d),
{
    reveal(flow_order);
    let nx = x + flow_dir(k).0;
    let ny = y + flow_dir(k).1;
    let ni = spec_flow_idx(origin, nx, ny);
    lemma_flow_idx(origin, nx, ny);
    lemma_flow_idx(origin, x, y);
    assert(nx as i32 as int == nx && ny as i32 as int == ny);
    // Cells other than n keep their index, mark and distance.
    assert forall|u: int, v: int| in_flow_window(origin, u, v) && !(u == nx && v == ny)
        implies spec_flow_idx(origin, u, v) != ni by {
        lemma_flow_idx(origin, u, v);
        if spec_flow_idx(origin, u, v) == ni {
            lemma_flow_idx_inj(origin, u, v, nx, ny);
        }
    }
    assert forall|i: int| 0 <= i < queue.len() implies #[trigger] fqd(ndist, origin, nq, i) == fqd(dist, origin, queue, i) by {
        assert(nq[i] == queue[i]);
        let p = queue[i];
        lemma_flow_idx(origin, p.0 as int, p.1 as int);
        if p.0 as int == nx && p.1 as int == ny {
            assert(false);
        }
    }
    assert(fqd(ndist, origin, nq, queue.len() as int) == d + 1);
    assert forall|i: int, j: int| 0 <= i < j < nq.len() implies fqd(ndist, origin, nq, i) <= fqd(ndist, origin, nq, j) by {
        assert(fqd(ndist, origin, nq, i) == fqd(dist, origin, queue, i));
        if j < queue.len() {
            assert(fqd(ndist, origin, nq, j) == fqd(dist, origin, queue, j));
        } else {
            assert(fqd(dist, origin, queue, i) <= d + 1);
        }
    }
    assert forall|i: int| 0 <= i < nq.len() implies d <= #[trigger] fqd(ndist, origin, nq, i) <= d + 1 by {
        if i < queue.len() {
            assert(fqd(ndist, origin, nq, i) == fqd(dist, origin, queue, i));
        }
    }
    assert(ndist[spec_flow_idx(origin, x, y)] == d);
    assert forall|u: int, v: int| in_flow_window(origin, u, v) && #[trigger] is_set(nfield, origin, u, v)
        implies nq.contains((u as i32, v as i32)) || (u == x && v == y)
            || (ndist[spec_flow_idx(origin, u, v)] <= d && moves_within_one(nfield, ndist, level, origin, u, v)) by {
        lemma_flow_idx(origin, u, v);
        if u == nx && v == ny {
            assert(nq[queue.len() as int] == (u as i32, v as i32));
        } else {
            assert(is_set(field, origin, u, v));
            if queue.contains((u as i32, v as i32)) {
                let m = choose|m: int| 0 <= m < queue.len() && queue[m] == (u as i32, v as i32);
                assert(nq[m] == (u as i32, v as i32));
            } else if !(u == x && v == y) {
                assert(flow_closed(field, level, origin, u, v));
                assert(moves_within_one(field, dist, level, origin, u, v));
                assert forall|m: int| 0 <= m < 8 && #[trigger] flow_move(level, origin, u, v, flow_dir(m).0, flow_dir(m).1)
                    && is_set(nfield, origin, u + flow_dir(m).0, v + flow_dir(m).1)
                    implies ndist[spec_flow_idx(origin, u + flow_dir(m).0, v + flow_dir(m).1)] <= ndist[spec_flow_idx(origin, u, v)] + 1 by {
                    assert(is_set(field, origin, u + flow_dir(m).0, v + flow_dir(m).1));
                    lemma_flow_idx(origin, u + flow_dir(m).0, v + flow_dir(m).1);
                    if u + flow_dir(m).0 == nx && v + flow_dir(m).1 == ny {
                        assert(false);
                    }
                }
            }
        }
    }
}

proof fn lemma_flow_order_done(field: Seq<Option<(i32, i32)>>, dist: Seq<int>, level: Level, origin: (i32, i32), queue: Seq<(i32, i32)>,
    x: int, y: int, d: int)
    requires
        flow_order(field, dist, level, origin, queue, (x, y), true, d),
        flow_origin_fits(origin),
        in_flow_window(origin, x, y),
        forall|j: int| 0 <= j < queue.len() ==> in_flow_window(origin, #[trigger] queue[j].0 as int, queue[j].1 as int),
    ensures
        flow_order(field, dist, level, origin, queue, (0, 0), false, d),
{
    reveal(flow_order);
    assert forall|m: int| 0 <= m < 8 && #[trigger] flow_move(level, origin, x, y, flow_dir(m).0, flow_dir(m).1)
        && is_set(field, origin, x + flow_dir(m).0, y + flow_dir(m).1)
        implies dist[spec_flow_idx(origin, x + flow_dir(m).0, y + flow_dir(m).1)] <= dist[spec_flow_idx(origin, x, y)] + 1 by {
        let u = x + flow_dir(m).0;
        let v = y + flow_dir(m).1;
        assert(is_set(field, origin, u, v));
        if queue.contains((u as i32, v as i32)) {
            let q = choose|q: int| 0 <= q < queue.len() && queue[q] == (u as i32, v as i32);
            assert(fqd(dist, origin, queue, q) <= d + 1);
            assert(in_flow_window(origin, queue[q].0 as int, queue[q].1 as int));
            assert(queue[q].0 as int == u && queue[q].1 as int == v);
        }
    }
    assert(moves_within_one(field, dist, level, origin, x, y));
}

/// The origin's window keeps every neighbor computation within `i32`.
pub open spec fn flow_origin_fits(origin: (i32, i32)) -> bool {
    i32::MIN + 27 <= origin.0 <= i32::MAX - 27 && i32::MIN + 27 <= origin.1 <= i32::MAX - 27
}

/// The tile reached from `(x, y)` by following the field's links `n` times.
pub open spec fn flow_follow(field: Seq<Option<(i32, i32)>>, origin: (i32, i32), x: int, y: int, n: nat) -> (int, int)
    decreases n,
{
    if n == 0 {
        (x, y)
    } else {
        match field[spec_flow_idx(origin, x, y)] {
            Some(p) => flow_follow(field, origin, p.0 as int, p.1 as int, (n - 1) as nat),
            None => (x, y),
        }
    }
}

/// Following a flow field from any tile it covers leads to its origin, in exactly as many steps
/// as the tile's breadth-first distance.
pub proof fn law_flow_reaches_origin(field: Seq<Option<(i32, i32)>>, dist: Seq<int>, level: Level, origin: (i32, i32), x: int, y: int)
    requires
        flow_field_ok(field, dist, level, origin),
        in_flow_window(origin, x, y),
        is_set(field, origin, x, y),
    ensures
        dist[spec_flow_idx(origin, x, y)] >= 0,
        flow_follow(field, origin, x, y, dist[spec_flow_idx(origin, x, y)] as nat) == (origin.0 as int, origin.1 as int),
    decreases dist[spec_flow_idx(origin, x, y)],
{
    lemma_flow_idx(origin, x, y);
    let i = spec_flow_idx(origin, x, y);
    assert(dist[i] >= 0);
    assert(flow_link_ok(field, dist, level, origin, x, y));
    let p = field[i].unwrap();
    if x == origin.0 && y == origin.1 {
        assert(dist[i] == 0);
    } else {
        lemma_flow_idx(origin, p.0 as int, p.1 as int);
        let pi = spec_flow_idx(origin, p.0 as int, p.1 as int);
        assert(dist[pi] >= 0);
        law_flow_reaches_origin(field, dist, level, origin, p.0 as int, p.1 as int);
        assert(dist[i] == dist[pi] + 1);
        assert(flow_follow(field, origin, x, y, dist[i] as nat) == flow_follow(field, origin, p.0 as int, p.1 as int, dist[pi] as nat));
    }
}

/// `path` is a walk of valid steps inside the window, from the origin.
pub open spec fn flow_walk(level: Level, origin: (i32, i32), path: Seq<(int, int)>) -> bool {
    &&& path.len() > 0
    &&& path[0] == (origin.0 as int, origin.1 as int)
    &&& forall|i: int| 0 <= i < path.len() ==> in_flow_window(origin, (#[trigger] path[i]).0, path[i].1)
    &&& forall|i: int| 0 <= i < path.len() - 1 ==> exists|m: int| 0 <= m < 8
        && #[trigger] path[i + 1] == (path[i].0 + flow_dir(m).0, path[i].1 + flow_dir(m).1)
        && flow_move(level, origin, path[i].0, path[i].1, flow_dir(m).0, flow_dir(m).1)
}

/// A flow-field distance is no longer than any walk of valid steps from the origin: every cell
/// a walk of `i` steps reaches is in the field, at most `i` from the origin.
#[verifier::spinoff_prover]
pub proof fn law_flow_shortest(field: Seq<Option<(i32, i32)>>, dist: Seq<int>, level: Level, origin: (i32, i32), path: Seq<(int, int)>, i: int)
    requires
        flow_field_ok(field, dist, level, origin),
        flow_origin_fits(origin),
        flow_walk(level, origin, path),
        0 <= i < path.len(),
    ensures
        is_set(field, origin, path[i].0, path[i].1),
        dist[spec_flow_idx(origin, path[i].0, path[i].1)] <= i,
    decreases i,
{
    if i > 0 {
        law_flow_shortest(field, dist, level, origin, path, i - 1);
        let p = path[i - 1];
        assert(in_flow_window(origin, p.0, p.1));
        let m = choose|m: int| 0 <= m < 8 && #[trigger] path[(i - 1) + 1] == (path[i - 1].0 + flow_dir(m).0, path[i - 1].1 + flow_dir(m).1)
            && flow_move(level, origin, path[i - 1].0, path[i - 1].1, flow_dir(m).0, flow_dir(m).1);
        assert(flow_closed(field, level, origin, p.0, p.1));
        assert(flow_move(level, origin, p.0, p.1, flow_dir(m).0, flow_dir(m).1));
        assert(is_set(field, origin, p.0 + flow_dir(m).0, p.1 + flow_dir(m).1));
        assert(moves_within_one(field, dist, level, origin, p.0, p.1));
    }
}

/// Breadth-first flow field from `origin` over the window around it.
pub fn bfs_flow_field(origin: (i32, i32), level: &Level) -> (field: Vec<Option<(i32, i32)>>)
    requires
        level.wf(),
        flow_origin_fits(origin),
    ensures
        exists|dist: Seq<int>| #[trigger] flow_field_ok(field@, dist, *level, origin),
{
    let dirs: [(i32, i32); 8] = [(-1, -1), (0, -1), (1, -1), (-1, 0), (1, 0), (-1, 1), (0, 1), (1, 1)];
    let mut field: Vec<Option<(i32, i32)>> = Vec::new();
    let mut i: usize = 0;
    while i < FLOW_CELLS
        invariant
            i <= FLOW_CELLS,
            field@.len() == i,
            forall|j: int| 0 <= j < i ==> field@[j] is None,
        decreases FLOW_CELLS - i,
    {
        field.push(None);
        i = i + 1;
    }
    let ghost mut dist: Seq<int> = Seq::new(FLOW_CELLS as nat, |j: int| 0);
    let ghost mut set_cells: Set<int> = Set::empty();
    let oi = flow_idx(origin, origin.0, origin.1).unwrap();
    field[oi] = Some(origin);
    let mut queue: VecDeque<(i32, i32)> = VecDeque::new();
    queue.push_back(origin);
    proof {
        set_cells = set_cells.insert(oi as int);
        assert forall|x: int, y: int| in_flow_window(origin, x, y) implies #[trigger] flow_link_ok(field@, dist, *level, origin, x, y) by {
            lemma_flow_idx(origin, x, y);
            if spec_flow_idx(origin, x, y) == oi {
                lemma_flow_idx_inj(origin, x, y, origin.0 as int, origin.1 as int);
            }
        }
        assert forall|x: int, y: int| in_flow_window(origin, x, y) && is_set(field@, origin, x, y) implies queue@.contains((x as i32, y as i32))
            || #[trigger] flow_closed(field@, *level, origin, x, y) by {
            lemma_flow_idx(origin, x, y);
            if spec_flow_idx(origin, x, y) == oi {
                lemma_flow_idx_inj(origin, x, y, origin.0 as int, origin.1 as int);
            }
            assert(queue@[0] == origin);
        }
        reveal(flow_order);
        assert(fqd(dist, origin, queue@, 0) == 0);
        assert forall|x: int, y: int| in_flow_window(origin, x, y) && #[trigger] is_set(field@, origin, x, y)
            implies queue@.contains((x as i32, y as i32)) by {
            lemma_flow_idx(origin, x, y);
            lemma_flow_idx_inj(origin, x, y, origin.0 as int, origin.1 as int);
            assert(queue@[0] == origin);
        }
        assert(flow_order(field@, dist, *level, origin, queue@, (0, 0), false, 0));
    }
    let ghost mut depth: int = 0;
    while queue.len() > 0
        invariant
            flow_order(field@, dist, *level, origin, queue@, (0, 0), false, depth),
            level.wf(),
            flow_origin_fits(origin),
            dirs@ == seq![(-1i32, -1i32), (0i32, -1i32), (1i32, -1i32), (-1i32, 0i32), (1i32, 0i32), (-1i32, 1i32), (0i32, 1i32), (1i32, 1i32)],
            field@.len() == FLOW_CELLS,
            dist.len() == FLOW_CELLS,
            field@[spec_flow_idx(origin, origin.0 as int, origin.1 as int)] == Some(origin),
            dist[spec_flow_idx(origin, origin.0 as int, origin.1 as int)] == 0,
            forall|j: int| 0 <= j < FLOW_CELLS ==> #[trigger] dist[j] >= 0,
            forall|x: int, y: int| in_flow_window(origin, x, y) ==> #[trigger] flow_link_ok(field@, dist, *level, origin, x, y),
            forall|k: int| 0 <= k < queue@.len() ==> in_flow_window(origin, #[trigger] queue@[k].0 as int, queue@[k].1 as int)
                && is_set(field@, origin, queue@[k].0 as int, queue@[k].1 as int),
            forall|x: int, y: int| in_flow_window(origin, x, y) && is_set(field@, origin, x, y) ==> queue@.contains((x as i32, y as i32))
                || #[trigger] flow_closed(field@, *level, origin, x, y),
            forall|j: int| 0 <= j < FLOW_CELLS ==> (field@[j] is Some <==> set_cells.contains(j)),
            forall|j: int| set_cells.contains(j) ==> 0 <= j < FLOW_CELLS,
            set_cells.finite(),
            set_cells.len() <= FLOW_CELLS,
        decreases FLOW_CELLS - set_cells.len(), queue@.len(),
    {
        let ghost q0 = queue@;
        let ghost s0 = set_cells.len();
        proof {
            lemma_flow_order_pop(field@, dist, *level, origin, q0, depth);
            depth = fqd(dist, origin, q0, 0);
        }
        let (x, y) = queue.pop_front().unwrap();
        proof {
            assert(q0[0] == (x, y));
            assert(queue@ == q0.drop_first());
            assert forall|cx: int, cy: int| in_flow_window(origin, cx, cy) && is_set(field@, origin, cx, cy) implies queue@.contains((cx as i32, cy as i32))
                || #[trigger] flow_closed(field@, *level, origin, cx, cy) || (cx == x && cy == y) by {
                if q0.contains((cx as i32, cy as i32)) && !(cx == x && cy == y) {
                    let k = choose|k: int| 0 <= k < q0.len() && q0[k] == (cx as i32, cy as i32);
                    assert(k != 0);
                    assert(queue@[k - 1] == (cx as i32, cy as i32));
                }
            }
        }
        let mut k: usize = 0;
        while k < 8
            invariant
                level.wf(),
                flow_origin_fits(origin),
                in_flow_window(origin, x as int, y as int),
                is_set(field@, origin, x as int, y as int),
                flow_order(field@, dist, *level, origin, queue@, (x as int, y as int), true, depth),
                dist[spec_flow_idx(origin, x as int, y as int)] == depth,
                dirs@ == seq![(-1i32, -1i32), (0i32, -1i32), (1i32, -1i32), (-1i32, 0i32), (1i32, 0i32), (-1i32, 1i32), (0i32, 1i32), (1i32, 1i32)],
                k <= 8,
                field@.len() == FLOW_CELLS,
                dist.len() == FLOW_CELLS,
                field@[spec_flow_idx(origin, origin.0 as int, origin.1 as int)] == Some(origin),
                dist[spec_flow_idx(origin, origin.0 as int, origin.1 as int)] == 0,
                forall|j: int| 0 <= j < FLOW_CELLS ==> #[trigger] dist[j] >= 0,
                forall|x: int, y: int| in_flow_window(origin, x, y) ==> #[trigger] flow_link_ok(field@, dist, *level, origin, x, y),
                forall|j: int| 0 <= j < queue@.len() ==> in_flow_window(origin, #[trigger] queue@[j].0 as int, queue@[j].1 as int)
                    && is_set(field@, origin, queue@[j].0 as int, queue@[j].1 as int),
                forall|cx: int, cy: int| in_flow_window(origin, cx, cy) && is_set(field@, origin, cx, cy) ==> queue@.contains((cx as i32, cy as i32))
                    || #[trigger] flow_closed(field@, *level, origin, cx, cy) || (cx == x && cy == y),
                forall|j: int| 0 <= j < k ==> #[trigger] flow_move(*level, origin, x as int, y as int, flow_dir(j).0, flow_dir(j).1)
                    ==> is_set(field@, origin, x + flow_dir(j).0, y + flow_dir(j).1),
                forall|j: int| 0 <= j < FLOW_CELLS ==> (field@[j] is Some <==> set_cells.contains(j)),
                forall|j: int| set_cells.contains(j) ==> 0 <= j < FLOW_CELLS,
                set_cells.finite(),
                set_cells.len() <= FLOW_CELLS,
                set_cells.len() + q0.len() == s0 + queue@.len() + 1,
                queue@.len() + 1 >= q0.len(),
            decreases 8 - k,
        {
            let (dx, dy) = dirs[k];
            assert((dx as int, dy as int) == flow_dir(k as int));
            let nx = x + dx;
            let ny = y + dy;
            match flow_idx(origin, nx, ny) {
                Some(ni) => {
                    if field[ni].is_none() && level.walkable(nx, ny)
                        && (dx == 0 || dy == 0 || level.walkable(x + dx, y) || level.walkable(x, y + dy)) {
                        let ghost before = field@;
                        let ghost old_dist = dist;
                        let ghost old_set = set_cells;
                        let ghost old_q = queue@;
                        field[ni] = Some((x, y));
                        queue.push_back((nx, ny));
                        proof {
                            lemma_flow_idx(origin, x as int, y as int);
                            let pi = spec_flow_idx(origin, x as int, y as int);
                            assert(pi != ni);
                            lemma_flow_order_visit(before, old_dist, *level, origin, old_q, x as int, y as int, k as int, depth,
                                field@, old_dist.update(ni as int, depth + 1), queue@);
                            dist = dist.update(ni as int, dist[pi] + 1);
                            assert(!set_cells.contains(ni as int));
                            set_cells = set_cells.insert(ni as int);
                            assert(set_cells.subset_of(vstd::set_lib::set_int_range(0, FLOW_CELLS as int)));
                            vstd::set_lib::lemma_int_range(0, FLOW_CELLS as int);
                            vstd::set_lib::lemma_len_subset(set_cells, vstd::set_lib::set_int_range(0, FLOW_CELLS as int));
                            assert forall|cx: int, cy: int| in_flow_window(origin, cx, cy) implies #[trigger] flow_link_ok(field@, dist, *level, origin, cx, cy) by {
                                lemma_flow_idx(origin, cx, cy);
                                if spec_flow_idx(origin, cx, cy) == ni {
                                    lemma_flow_idx_inj(origin, cx, cy, nx as int, ny as int);
                                } else {
                                    assert(flow_link_ok(before, old_dist, *level, origin, cx, cy));
                                    if let Some(p) = before[spec_flow_idx(origin, cx, cy)] {
                                        if !(cx == origin.0 && cy == origin.1 && p == origin) {
                                            lemma_flow_idx(origin, p.0 as int, p.1 as int);
                                        }
                                    }
                                }
                            }
                            assert forall|j: int| 0 <= j < queue@.len() implies in_flow_window(origin, #[trigger] queue@[j].0 as int, queue@[j].1 as int)
                                && is_set(field@, origin, queue@[j].0 as int, queue@[j].1 as int) by {
                                if j < old_q.len() {
                                    assert(queue@[j] == old_q[j]);
                                    lemma_flow_idx(origin, old_q[j].0 as int, old_q[j].1 as int);
                                }
                            }
                            assert forall|cx: int, cy: int| in_flow_window(origin, cx, cy) && is_set(field@, origin, cx, cy) implies queue@.contains((cx as i32, cy as i32))
                                || #[trigger] flow_closed(field@, *level, origin, cx, cy) || (cx == x && cy == y) by {
                                lemma_flow_idx(origin, cx, cy);
                                if spec_flow_idx(origin, cx, cy) == ni {
                                    lemma_flow_idx_inj(origin, cx, cy, nx as int, ny as int);
                                    assert(queue@[queue@.len() - 1] == (nx, ny));
                                } else {
                                    if old_q.contains((cx as i32, cy as i32)) {
                                        let m = choose|m: int| 0 <= m < old_q.len() && old_q[m] == (cx as i32, cy as i32);
                                        assert(queue@[m] == (cx as i32, cy as i32));
                                    } else if !(cx == x && cy == y) {
                                        assert(flow_closed(before, *level, origin, cx, cy));
                                        assert forall|m: int| 0 <= m < 8 && #[trigger] flow_move(*level, origin, cx, cy, flow_dir(m).0, flow_dir(m).1)
                                            implies is_set(field@, origin, cx + flow_dir(m).0, cy + flow_dir(m).1) by {
                                            assert(is_set(before, origin, cx + flow_dir(m).0, cy + flow_dir(m).1));
                                        }
                                    }
                                }
                            }
                            assert forall|j: int| 0 <= j < k + 1 && #[trigger] flow_move(*level, origin, x as int, y as int, flow_dir(j).0, flow_dir(j).1)
                                implies is_set(field@, origin, x + flow_dir(j).0, y + flow_dir(j).1) by {
                                if j < k {
                                    assert(is_set(before, origin, x + flow_dir(j).0, y + flow_dir(j).1));
                                }
                            }
                        }
                    } else {
                        proof {
                            assert forall|j: int| 0 <= j < k + 1 && #[trigger] flow_move(*level, origin, x as int, y as int, flow_dir(j).0, flow_dir(j).1)
                                implies is_set(field@, origin, x + flow_dir(j).0, y + flow_dir(j).1) by {
                            }
                        }
                    }
                },
                None => {},
            }
            k = k + 1;
        }
        proof {
            assert(flow_closed(field@, *level, origin, x as int, y as int));
            assert(set_cells.len() > s0 || queue@.len() < q0.len());
            lemma_flow_order_done(field@, dist, *level, origin, queue@, x as int, y as int, depth);
        }
    }
    proof {
        reveal(flow_order);
        assert(flow_field_ok(field@, dist, *level, origin));
    }
    field
}

/// A cached flow field toward the player: a dense grid over the window around `origin`, each
/// cell holding the adjacent tile one step closer to the origin, plus the player tile and level
/// it was computed for.
pub struct FlowField {
    origin: (i32, i32),
    field: Vec<Option<(i32, i32)>>,
    computed_for: Option<(i32, i32, usize)>,
}

impl FlowField {
    pub closed spec fn origin_spec(&self) -> (i32, i32) {
        self.origin
    }

    pub closed spec fn cells(&self) -> Seq<Option<(i32, i32)>> {
        self.field@
    }

    pub closed spec fn computed_for_spec(&self) -> Option<(i32, i32, usize)> {
        self.computed_for
    }

    /// The next tile toward the origin from `(x, y)`: `None` outside the window or where the
    /// field has no entry.
    pub fn next_step(&self, x: i32, y: i32) -> (r: Option<(i32, i32)>)
        requires
            self.cells().len() == FLOW_CELLS,
            crate::level::i32_range(x - self.origin_spec().0),
            crate::level::i32_range(y - self.origin_spec().1),
            crate::level::i32_range(x - self.origin_spec().0 + FLOW_FIELD_RADIUS),
            crate::level::i32_range(y - self.origin_spec().1 + FLOW_FIELD_RADIUS),
        ensures
            r == if in_flow_window(self.origin_spec(), x as int, y as int) {
                self.cells()[spec_flow_idx(self.origin_spec(), x as int, y as int)]
            } else {
                None
            },
    {
        match flow_idx(self.origin, x, y) {
            Some(i) => self.field[i],
            None => None,
        }
    }
}

impl Default for FlowField {
    fn default() -> (f: Self)
        ensures
            f.origin_spec() == (0i32, 0i32),
            f.cells().len() == 0,
            f.computed_for_spec() is None,
    {
        FlowField { origin: (0, 0), field: Vec::new(), computed_for: None }
    }
}

/// Brings the flow field up to date for the player standing at `(x, y)` on level `z`: when it
/// was last computed for that very spot nothing changes, otherwise the field is rebuilt by a
/// breadth-first search from the player's tile over `level`.
pub fn compute_flow_field(flow: &mut FlowField, x: i32, y: i32, z: usize, level: &Level)
    requires
        level.wf(),
        flow_origin_fits((x, y)),
    ensures
        old(flow).computed_for_spec() == Some((x, y, z)) ==> *final(flow) == *old(flow),
        old(flow).computed_for_spec() != Some((x, y, z)) ==> {
            &&& final(flow).origin_spec() == (x, y)
            &&& final(flow).computed_for_spec() == Some((x, y, z))
            &&& exists|dist: Seq<int>| #[trigger] flow_field_ok(final(flow).cells(), dist, *level, (x, y))
        },
{
    let key = (x, y, z);
    let same = match flow.computed_for {
        Some(k) => k.0 == key.0 && k.1 == key.1 && k.2 == key.2,
        None => false,
    };
    if !same {
        let f = bfs_flow_field((x, y), level);
        let ghost d = choose|d: Seq<int>| flow_field_ok(f@, d, *level, (x, y));
        flow.origin = (x, y);
        flow.field = f;
        flow.computed_for = Some(key);
        assert(flow_field_ok(flow.cells(), d, *level, (x, y)));
    }
}

} // verus!

verus! {

/// The neighbour of `a` in king-move direction `k`.
pub open spec fn nbr8(a: (int, int), k: int) -> (int, int) {
    (a.0 + flow_dir(k).0, a.1 + flow_dir(k).1)
}

pub open spec fn pos(p: (i32, i32)) -> (int, int) {
    (p.0 as int, p.1 as int)
}

/// The path search may step from `a` in direction `k`: onto a walkable tile or onto the goal
/// (whatever stands there), and not diagonally between two unwalkable tiles.
pub open spec fn path_step_ok(level: Level, goal: (i32, i32), a: (int, int), k: int) -> bool {
    let b = nbr8(a, k);
    let dx = flow_dir(k).0;
    let dy = flow_dir(k).1;
    &&& (level.spec_walkable(b.0, b.1) || b == pos(goal))
    &&& (dx == 0 || dy == 0 || level.spec_walkable(a.0 + dx, a.1) || level.spec_walkable(a.0, a.1 + dy))
}

/// `b` is one step of the path search away from `a`.
pub open spec fn legal_step(level: Level, goal: (i32, i32), a: (int, int), b: (int, int)) -> bool {
    exists|k: int| 0 <= k < 8 && #[trigger] nbr8(a, k) == b && path_step_ok(level, goal, a, k)
}

/// `path` leads from `start` (left out) to `goal` (the last step) by legal steps.
pub open spec fn is_route(level: Level, start: (i32, i32), goal: (i32, i32), path: Seq<(i32, i32)>) -> bool {
    &&& path.len() > 0
    &&& path.last() == goal
    &&& legal_step(level, goal, pos(start), pos(path[0]))
    &&& forall|i: int| 0 <= i < path.len() - 1 ==> legal_step(level, goal, pos(#[trigger] path[i]), pos(path[i + 1]))
}

/// Where the search keeps a tile's cost: grid tiles by row-major index, then an off-grid goal,
/// then an off-grid start; -1 for any other tile.
pub open spec fn slot_of(level: Level, start: (i32, i32), goal: (i32, i32), n: (int, int)) -> int {
    let w = level.width as int;
    let h = level.height as int;
    if 0 <= n.0 < w && 0 <= n.1 < h {
        n.1 * w + n.0
    } else if n == pos(goal) {
        w * h
    } else if n == pos(start) {
        w * h + 1
    } else {
        -1
    }
}

/// The best known cost to reach `n`, `i32::MAX` when none is known.
pub open spec fn gval(gs: Seq<i32>, level: Level, start: (i32, i32), goal: (i32, i32), n: (int, int)) -> int {
    let s = slot_of(level, start, goal, n);
    if s >= 0 { gs[s] as int } else { i32::MAX as int }
}

proof fn lemma_slot_range(level: Level, start: (i32, i32), goal: (i32, i32), n: (int, int))
    ensures
        -1 <= slot_of(level, start, goal, n) < level.width * level.height + 2,
        slot_of(level, start, goal, n) == -1 ==> !level.spec_walkable(n.0, n.1) && n != pos(goal) && n != pos(start),
{
    let w = level.width as int;
    let h = level.height as int;
    if 0 <= n.0 < w && 0 <= n.1 < h {
        crate::locations::planet_gen::lemma_rect_index(w, h, n.0, n.1);
    }
}

/// Distinct tiles have distinct slots.
proof fn lemma_slot_inj(level: Level, start: (i32, i32), goal: (i32, i32), n: (int, int), m: (int, int))
    requires
        start != goal,
        slot_of(level, start, goal, n) >= 0,
        slot_of(level, start, goal, n) == slot_of(level, start, goal, m),
    ensures
        n == m,
{
    let w = level.width as int;
    let h = level.height as int;
    let gn = 0 <= n.0 < w && 0 <= n.1 < h;
    let gm = 0 <= m.0 < w && 0 <= m.1 < h;
    if gn {
        crate::locations::planet_gen::lemma_rect_index(w, h, n.0, n.1);
    }
    if gm {
        crate::locations::planet_gen::lemma_rect_index(w, h, m.0, m.1);
    }
    if gn && gm {
        crate::locations::planet_gen::lemma_rect_index_inj(w, n.0, n.1, m.0, m.1);
    }
}

/// Writing `v` into `m`'s slot changes the cost of `m` alone.
proof fn lemma_gval_update(gs: Seq<i32>, level: Level, start: (i32, i32), goal: (i32, i32), m: (int, int), v: i32)
    requires
        start != goal,
        gs.len() == level.width * level.height + 2,
        slot_of(level, start, goal, m) >= 0,
    ensures
        forall|n: (int, int)| #[trigger] gval(gs.update(slot_of(level, start, goal, m), v), level, start, goal, n)
            == if n == m { v as int } else { gval(gs, level, start, goal, n) },
{
    assert forall|n: (int, int)| #[trigger] gval(gs.update(slot_of(level, start, goal, m), v), level, start, goal, n)
        == if n == m { v as int } else { gval(gs, level, start, goal, n) } by {
        lemma_slot_range(level, start, goal, n);
        lemma_slot_range(level, start, goal, m);
        if n != m && slot_of(level, start, goal, n) == slot_of(level, start, goal, m) {
            lemma_slot_inj(level, start, goal, n, m);
        }
    }
}

/// The tile's slot, as the search computes it.
fn path_slot(level: &Level, start: (i32, i32), goal: (i32, i32), x: i32, y: i32) -> (r: Option<usize>)
    requires
        level.width * level.height + 2 < i32::MAX,
    ensures
        r is Some <==> slot_of(*level, start, goal, (x as int, y as int)) >= 0,
        r is Some ==> r->0 == slot_of(*level, start, goal, (x as int, y as int)),
{
    proof {
        lemma_slot_range(*level, start, goal, (x as int, y as int));
    }
    let n = level.width * level.height;
    if x >= 0 && y >= 0 && (x as usize) < level.width && (y as usize) < level.height {
        proof {
            crate::locations::planet_gen::lemma_rect_index(level.width as int, level.height as int, x as int, y as int);
        }
        Some(y as usize * level.width + x as usize)
    } else if x == goal.0 && y == goal.1 {
        Some(n)
    } else if x == start.0 && y == start.1 {
        Some(n + 1)
    } else {
        None
    }
}

/// The sum of the costs.
pub open spec fn cost_sum(s: Seq<i32>) -> int
    decreases s.len(),
{
    if s.len() == 0 { 0 } else { cost_sum(s.drop_last()) + s.last() }
}

proof fn lemma_cost_sum_update(s: Seq<i32>, i: int, v: i32)
    requires
        0 <= i < s.len(),
    ensures
        cost_sum(s.update(i, v)) == cost_sum(s) - s[i] + v,
    decreases s.len(),
{
    let t = s.update(i, v);
    if i == s.len() - 1 {
        assert(t.drop_last() =~= s.drop_last());
    } else {
        assert(t.drop_last() =~= s.drop_last().update(i, v));
        lemma_cost_sum_update(s.drop_last(), i, v);
    }
}

proof fn lemma_cost_sum_nonneg(s: Seq<i32>)
    requires
        forall|i: int| 0 <= i < s.len() ==> #[trigger] s[i] >= 0,
    ensures
        cost_sum(s) >= 0,
    decreases s.len(),
{
    if s.len() > 0 {
        lemma_cost_sum_nonneg(s.drop_last());
    }
}

/// King-move distance, computed wide enough for any two positions.
fn chebyshev_wide(a: (i32, i32), b: (i32, i32)) -> (d: i64)
    ensures
        d == spec_chebyshev(a, b),
{
    let dx: i64 = a.0 as i64 - b.0 as i64;
    let dy: i64 = a.1 as i64 - b.1 as i64;
    let ax = if dx < 0 { -dx } else { dx };
    let ay = if dy < 0 { -dy } else { dy };
    if ax >= ay { ax } else { ay }
}

} // verus!

verus! {

/// An open-list entry: the estimated total cost, the cost so far, and the tile.
pub open spec fn entry_pos(e: (i64, i32, i32, i32)) -> (int, int) {
    (e.2 as int, e.3 as int)
}

/// Some entry of `open` stands for `n` at cost `g`.
pub open spec fn open_has(open: Seq<(i64, i32, i32, i32)>, n: (int, int), g: int) -> bool {
    exists|i: int| 0 <= i < open.len() && entry_pos(#[trigger] open[i]) == n && open[i].1 == g
}

/// Every tile one legal step from `n` has a known cost.
pub open spec fn expanded(level: Level, start: (i32, i32), goal: (i32, i32), gs: Seq<i32>, n: (int, int)) -> bool {
    forall|q: int| 0 <= q < 8 && #[trigger] path_step_ok(level, goal, n, q) ==> gval(gs, level, start, goal, nbr8(n, q)) < i32::MAX
}

/// The tile `n` was reached from the tile its link names, by a legal step, at a higher cost.
pub open spec fn link_ok(level: Level, start: (i32, i32), goal: (i32, i32), gs: Seq<i32>, cf: Seq<Option<(i32, i32)>>, n: (int, int)) -> bool {
    let s = slot_of(level, start, goal, n);
    &&& cf[s] is Some
    &&& legal_step(level, goal, pos(cf[s]->0), n)
    &&& gval(gs, level, start, goal, pos(cf[s]->0)) < gval(gs, level, start, goal, n)
}

pub open spec fn entry_ok(level: Level, start: (i32, i32), goal: (i32, i32), gs: Seq<i32>, e: (i64, i32, i32, i32)) -> bool {
    &&& gval(gs, level, start, goal, entry_pos(e)) <= e.1 < i32::MAX
    &&& e.0 == e.1 + spec_chebyshev((e.2, e.3), goal)
}

/// The state of the path search: the known costs `gs` (start at 0, each below the number of
/// tiles with a cost, which `dom` holds), the links `cf`, the open list; each tile with a cost
/// is the start, walkable or the goal, is linked (but the start) to a cheaper one, and is on the
/// open list at its cost or has been expanded (the goal never is; nor need `except` be either).
pub closed spec fn search_inv(level: Level, start: (i32, i32), goal: (i32, i32), gs: Seq<i32>, cf: Seq<Option<(i32, i32)>>,
    open: Seq<(i64, i32, i32, i32)>, dom: Set<int>, except: Option<(int, int)>) -> bool {
    let n_slots = level.width * level.height + 2;
    &&& gs.len() == n_slots
    &&& cf.len() == n_slots
    &&& gval(gs, level, start, goal, pos(start)) == 0
    &&& forall|i: int| 0 <= i < n_slots ==> #[trigger] gs[i] >= 0
    &&& dom.finite()
    &&& forall|i: int| #[trigger] dom.contains(i) ==> 0 <= i < n_slots
    &&& forall|i: int| 0 <= i < n_slots ==> (dom.contains(i) <==> #[trigger] gs[i] < i32::MAX)
    &&& forall|i: int| 0 <= i < n_slots && #[trigger] gs[i] < i32::MAX ==> gs[i] < dom.len()
    &&& forall|n: (int, int)| #[trigger] gval(gs, level, start, goal, n) < i32::MAX
        ==> n == pos(start) || level.spec_walkable(n.0, n.1) || n == pos(goal)
    &&& forall|n: (int, int)| n != pos(start) && #[trigger] gval(gs, level, start, goal, n) < i32::MAX
        ==> link_ok(level, start, goal, gs, cf, n)
    &&& forall|i: int| 0 <= i < open.len() ==> #[trigger] entry_ok(level, start, goal, gs, open[i])
    &&& forall|n: (int, int)| #[trigger] gval(gs, level, start, goal, n) < i32::MAX && except != Some(n)
        ==> open_has(open, n, gval(gs, level, start, goal, n)) || (n != pos(goal) && expanded(level, start, goal, gs, n))
}

/// The bounds the search relies on.
pub open spec fn search_fits(level: Level, start: (i32, i32), goal: (i32, i32)) -> bool {
    &&& level.wf()
    &&& level.width <= i32::MAX
    &&& level.height <= i32::MAX
    &&& level.width * level.height + 2 < i32::MAX
    &&& i32::MIN < start.0 < i32::MAX
    &&& i32::MIN < start.1 < i32::MAX
    &&& start != goal
}

proof fn lemma_search_start(level: Level, start: (i32, i32), goal: (i32, i32), gs: Seq<i32>, cf: Seq<Option<(i32, i32)>>)
    requires
        search_fits(level, start, goal),
        gs.len() == level.width * level.height + 2,
        cf.len() == level.width * level.height + 2,
        forall|i: int| 0 <= i < gs.len() ==> #[trigger] gs[i] == i32::MAX,
    ensures
        search_inv(level, start, goal, gs.update(slot_of(level, start, goal, pos(start)), 0), cf,
            seq![(spec_chebyshev(start, goal) as i64, 0i32, start.0, start.1)], set![slot_of(level, start, goal, pos(start))], None),
        forall|n: (int, int)| #[trigger] gval(gs.update(slot_of(level, start, goal, pos(start)), 0), level, start, goal, n) < i32::MAX
            ==> n == pos(start),
        gval(gs.update(slot_of(level, start, goal, pos(start)), 0), level, start, goal, pos(start)) == 0,
{
    reveal(search_inv);
    let s0 = slot_of(level, start, goal, pos(start));
    lemma_slot_range(level, start, goal, pos(start));
    let gs2 = gs.update(s0, 0);
    let open = seq![(spec_chebyshev(start, goal) as i64, 0i32, start.0, start.1)];
    let dom = set![s0];
    let n_slots = level.width * level.height + 2;
    assert(dom.len() == 1);
    assert forall|i: int| 0 <= i < n_slots implies (dom.contains(i) <==> #[trigger] gs2[i] < i32::MAX) by {}
    assert forall|n: (int, int)| #[trigger] gval(gs2, level, start, goal, n) < i32::MAX implies n == pos(start) by {
        lemma_slot_range(level, start, goal, n);
        if slot_of(level, start, goal, n) == s0 {
            lemma_slot_inj(level, start, goal, n, pos(start));
        }
    }
    assert(entry_ok(level, start, goal, gs2, open[0]));
    assert forall|n: (int, int)| #[trigger] gval(gs2, level, start, goal, n) < i32::MAX && None::<(int, int)> != Some(n)
        implies open_has(open, n, gval(gs2, level, start, goal, n)) by {
        assert(entry_pos(open[0]) == n);
    }
}

} // verus!

verus! {

/// Taking entry `k` off the open list: its tile has a cost no higher than the entry's; a stale
/// entry leaves the search as it was, a current one leaves its tile to be expanded.
#[verifier::spinoff_prover]
proof fn lemma_search_pop(level: Level, start: (i32, i32), goal: (i32, i32), gs: Seq<i32>, cf: Seq<Option<(i32, i32)>>,
    open: Seq<(i64, i32, i32, i32)>, dom: Set<int>, k: int)
    requires
        search_inv(level, start, goal, gs, cf, open, dom, None),
        0 <= k < open.len(),
    ensures
        gval(gs, level, start, goal, entry_pos(open[k])) <= open[k].1 < i32::MAX,
        0 <= gval(gs, level, start, goal, entry_pos(open[k])),
        entry_pos(open[k]) == pos(start) || level.spec_walkable(entry_pos(open[k]).0, entry_pos(open[k]).1)
            || entry_pos(open[k]) == pos(goal),
        open[k].0 == open[k].1 + spec_chebyshev((open[k].2, open[k].3), goal),
        gval(gs, level, start, goal, entry_pos(open[k])) < open[k].1
            ==> search_inv(level, start, goal, gs, cf, open.remove(k), dom, None),
        gval(gs, level, start, goal, entry_pos(open[k])) == open[k].1
            ==> search_inv(level, start, goal, gs, cf, open.remove(k), dom, Some(entry_pos(open[k]))),
{
    reveal(search_inv);
    let e = open[k];
    let c = entry_pos(e);
    assert(entry_ok(level, start, goal, gs, e));
    lemma_slot_range(level, start, goal, c);
    let open2 = open.remove(k);
    assert forall|i: int| 0 <= i < open2.len() implies #[trigger] entry_ok(level, start, goal, gs, open2[i]) by {
        if i < k {
            assert(open2[i] == open[i]);
        } else {
            assert(open2[i] == open[i + 1]);
        }
    }
    let stale = gval(gs, level, start, goal, c) < e.1;
    let except = if stale { None } else { Some(c) };
    assert forall|n: (int, int)| #[trigger] gval(gs, level, start, goal, n) < i32::MAX && except != Some(n)
        implies open_has(open2, n, gval(gs, level, start, goal, n)) || (n != pos(goal) && expanded(level, start, goal, gs, n)) by {
        if open_has(open, n, gval(gs, level, start, goal, n)) {
            let i = choose|i: int| 0 <= i < open.len() && entry_pos(#[trigger] open[i]) == n && open[i].1 == gval(gs, level, start, goal, n);
            assert(i != k);
            if i < k {
                assert(open2[i] == open[i]);
            } else {
                assert(open2[i - 1] == open[i]);
            }
        }
    }
}

/// Expanding tile `c` at cost `g` through a step to `m` that lowers `m`'s cost to `g + 1`:
/// `m` gets the new cost, a link to `c` and an open entry; no other cost changes.
#[verifier::spinoff_prover]
#[verifier::rlimit(40)]
proof fn lemma_search_relax(level: Level, start: (i32, i32), goal: (i32, i32), gs: Seq<i32>, cf: Seq<Option<(i32, i32)>>,
    open: Seq<(i64, i32, i32, i32)>, dom: Set<int>, c: (i32, i32), q: int, g: i32)
    requires
        search_inv(level, start, goal, gs, cf, open, dom, Some(pos(c))),
        search_fits(level, start, goal),
        gval(gs, level, start, goal, pos(c)) == g,
        0 <= q < 8,
        path_step_ok(level, goal, pos(c), q),
        g + 1 < gval(gs, level, start, goal, nbr8(pos(c), q)),
        i32::MIN <= nbr8(pos(c), q).0 <= i32::MAX,
        i32::MIN <= nbr8(pos(c), q).1 <= i32::MAX,
    ensures
        ({
            let m = nbr8(pos(c), q);
            let s = slot_of(level, start, goal, m);
            let gs2 = gs.update(s, (g + 1) as i32);
            &&& 0 <= s < gs.len()
            &&& g + 1 < i32::MAX
            &&& search_inv(level, start, goal, gs2, cf.update(s, Some(c)),
                open.push(((g + 1 + spec_chebyshev((m.0 as i32, m.1 as i32), goal)) as i64, (g + 1) as i32, m.0 as i32, m.1 as i32)),
                dom.insert(s), Some(pos(c)))
            &&& forall|n: (int, int)| #[trigger] gval(gs2, level, start, goal, n) <= gval(gs, level, start, goal, n)
            &&& gval(gs2, level, start, goal, m) == g + 1
            &&& gval(gs2, level, start, goal, pos(c)) == g
            &&& cost_sum(gs2) < cost_sum(gs)
        }),
{
    reveal(search_inv);
    let m = nbr8(pos(c), q);
    let s = slot_of(level, start, goal, m);
    let n_slots = level.width * level.height + 2;
    let ng = (g + 1) as i32;
    let gs2 = gs.update(s, ng);
    let cf2 = cf.update(s, Some(c));
    let e = ((g + 1 + spec_chebyshev((m.0 as i32, m.1 as i32), goal)) as i64, ng, m.0 as i32, m.1 as i32);
    let open2 = open.push(e);
    let dom2 = dom.insert(s);
    lemma_slot_range(level, start, goal, m);
    lemma_slot_range(level, start, goal, pos(c));
    // m is walkable or the goal, so has a slot; c's cost is below the number of costed tiles.
    assert(s >= 0);
    let sc = slot_of(level, start, goal, pos(c));
    assert(gs[sc] < dom.len());
    vstd::set_lib::lemma_int_range(0, n_slots);
    vstd::set_lib::lemma_len_subset(dom, vstd::set_lib::set_int_range(0, n_slots));
    assert(g + 1 < i32::MAX);
    lemma_gval_update(gs, level, start, goal, m, ng);
    assert(m != pos(c));
    assert(m != pos(start));
    lemma_cost_sum_update(gs, s, ng);
    // The new cost stays below the number of costed tiles.
    if dom.contains(s) {
        assert(dom2 == dom);
    } else {
        assert(dom2.len() == dom.len() + 1);
    }
    assert forall|i: int| 0 <= i < n_slots && #[trigger] gs2[i] < i32::MAX implies gs2[i] < dom2.len() by {
        if i != s {
            assert(gs2[i] == gs[i]);
        }
    }
    assert forall|i: int| 0 <= i < n_slots implies (dom2.contains(i) <==> #[trigger] gs2[i] < i32::MAX) by {
        if i != s {
            assert(gs2[i] == gs[i]);
        }
    }
    assert forall|i: int| 0 <= i < n_slots implies #[trigger] gs2[i] >= 0 by {
        if i != s {
            assert(gs2[i] == gs[i]);
        }
    }
    assert forall|n: (int, int)| #[trigger] gval(gs2, level, start, goal, n) < i32::MAX
        implies n == pos(start) || level.spec_walkable(n.0, n.1) || n == pos(goal) by {
        if n != m {
            assert(gval(gs, level, start, goal, n) < i32::MAX);
        }
    }
    assert forall|n: (int, int)| n != pos(start) && #[trigger] gval(gs2, level, start, goal, n) < i32::MAX
        implies link_ok(level, start, goal, gs2, cf2, n) by {
        lemma_slot_range(level, start, goal, n);
        if n == m {
            assert(nbr8(pos(c), q) == m);
            assert(legal_step(level, goal, pos(c), m));
        } else {
            assert(link_ok(level, start, goal, gs, cf, n));
            let sn = slot_of(level, start, goal, n);
            if sn == s {
                lemma_slot_inj(level, start, goal, n, m);
            }
            assert(cf2[sn] == cf[sn]);
            let p = pos(cf[sn]->0);
            assert(gval(gs2, level, start, goal, p) <= gval(gs, level, start, goal, p));
        }
    }
    assert forall|i: int| 0 <= i < open2.len() implies #[trigger] entry_ok(level, start, goal, gs2, open2[i]) by {
        if i < open.len() {
            assert(open2[i] == open[i]);
            assert(entry_ok(level, start, goal, gs, open[i]));
            assert(gval(gs2, level, start, goal, entry_pos(open[i])) <= gval(gs, level, start, goal, entry_pos(open[i])));
        } else {
            assert(open2[i] == e);
            assert(entry_pos(e) == m);
        }
    }
    assert forall|n: (int, int)| #[trigger] gval(gs2, level, start, goal, n) < i32::MAX && Some(pos(c)) != Some(n)
        implies open_has(open2, n, gval(gs2, level, start, goal, n)) || (n != pos(goal) && expanded(level, start, goal, gs2, n)) by {
        if n == m {
            assert(open2[open.len() as int] == e);
            assert(entry_pos(e) == m);
        } else {
            assert(gval(gs2, level, start, goal, n) == gval(gs, level, start, goal, n));
            if open_has(open, n, gval(gs, level, start, goal, n)) {
                let i = choose|i: int| 0 <= i < open.len() && entry_pos(#[trigger] open[i]) == n && open[i].1 == gval(gs, level, start, goal, n);
                assert(open2[i] == open[i]);
            } else {
                assert forall|q2: int| 0 <= q2 < 8 && #[trigger] path_step_ok(level, goal, n, q2)
                    implies gval(gs2, level, start, goal, nbr8(n, q2)) < i32::MAX by {
                    assert(gval(gs, level, start, goal, nbr8(n, q2)) < i32::MAX);
                }
            }
        }
    }
}

} // verus!

verus! {

/// Once every step out of `c` has been tried, `c` counts as expanded.
proof fn lemma_search_close(level: Level, start: (i32, i32), goal: (i32, i32), gs: Seq<i32>, cf: Seq<Option<(i32, i32)>>,
    open: Seq<(i64, i32, i32, i32)>, dom: Set<int>, c: (int, int))
    requires
        search_inv(level, start, goal, gs, cf, open, dom, Some(c)),
        c != pos(goal),
        expanded(level, start, goal, gs, c),
    ensures
        search_inv(level, start, goal, gs, cf, open, dom, None),
{
    reveal(search_inv);
}

/// What the search state gives at any point.
proof fn lemma_search_facts(level: Level, start: (i32, i32), goal: (i32, i32), gs: Seq<i32>, cf: Seq<Option<(i32, i32)>>,
    open: Seq<(i64, i32, i32, i32)>, dom: Set<int>, except: Option<(int, int)>)
    requires
        search_inv(level, start, goal, gs, cf, open, dom, except),
    ensures
        gs.len() == level.width * level.height + 2,
        cf.len() == level.width * level.height + 2,
        gval(gs, level, start, goal, pos(start)) == 0,
        forall|n: (int, int)| 0 <= #[trigger] gval(gs, level, start, goal, n) <= i32::MAX,
        forall|n: (int, int)| n != pos(start) && #[trigger] gval(gs, level, start, goal, n) < i32::MAX
            ==> link_ok(level, start, goal, gs, cf, n),
        forall|n: (int, int)| #[trigger] gval(gs, level, start, goal, n) < i32::MAX
            ==> n == pos(start) || level.spec_walkable(n.0, n.1) || n == pos(goal),
        forall|n: (int, int)| #[trigger] gval(gs, level, start, goal, n) < i32::MAX
            ==> gval(gs, level, start, goal, n) < level.width * level.height + 2,
        cost_sum(gs) >= 0,
{
    reveal(search_inv);
    lemma_cost_sum_nonneg(gs);
    let n_slots = level.width * level.height + 2;
    vstd::set_lib::lemma_int_range(0, n_slots);
    vstd::set_lib::lemma_len_subset(dom, vstd::set_lib::set_int_range(0, n_slots));
    assert forall|n: (int, int)| #[trigger] gval(gs, level, start, goal, n) < i32::MAX
        implies gval(gs, level, start, goal, n) < n_slots by {
        lemma_slot_range(level, start, goal, n);
    }
    assert forall|n: (int, int)| 0 <= #[trigger] gval(gs, level, start, goal, n) <= i32::MAX by {
        lemma_slot_range(level, start, goal, n);
    }
}

/// With the open list empty, every tile with a cost has been expanded and the goal has none,
/// so no route reaches the goal.
proof fn lemma_search_exhausted(level: Level, start: (i32, i32), goal: (i32, i32), gs: Seq<i32>, cf: Seq<Option<(i32, i32)>>,
    open: Seq<(i64, i32, i32, i32)>, dom: Set<int>, path: Seq<(i32, i32)>)
    requires
        search_inv(level, start, goal, gs, cf, open, dom, None),
        open.len() == 0,
    ensures
        !is_route(level, start, goal, path),
{
    reveal(search_inv);
    assert(gval(gs, level, start, goal, pos(goal)) == i32::MAX) by {
        if gval(gs, level, start, goal, pos(goal)) < i32::MAX {
            assert(open_has(open, pos(goal), gval(gs, level, start, goal, pos(goal))) || pos(goal) != pos(goal));
        }
    }
    if is_route(level, start, goal, path) {
        assert forall|i: int| 0 <= i < path.len() implies #[trigger] gval(gs, level, start, goal, pos(path[i])) < i32::MAX by {
            lemma_route_costed(level, start, goal, gs, cf, open, dom, path, i);
        }
        assert(gval(gs, level, start, goal, pos(path[path.len() - 1])) < i32::MAX);
    }
}

proof fn lemma_route_costed(level: Level, start: (i32, i32), goal: (i32, i32), gs: Seq<i32>, cf: Seq<Option<(i32, i32)>>,
    open: Seq<(i64, i32, i32, i32)>, dom: Set<int>, path: Seq<(i32, i32)>, i: int)
    requires
        search_inv(level, start, goal, gs, cf, open, dom, None),
        open.len() == 0,
        gval(gs, level, start, goal, pos(goal)) == i32::MAX,
        is_route(level, start, goal, path),
        0 <= i < path.len(),
    ensures
        gval(gs, level, start, goal, pos(path[i])) < i32::MAX,
    decreases i,
{
    reveal(search_inv);
    let prev = if i == 0 { pos(start) } else { pos(path[i - 1]) };
    if i > 0 {
        lemma_route_costed(level, start, goal, gs, cf, open, dom, path, i - 1);
        assert(legal_step(level, goal, pos(path[i - 1]), pos(path[i])));
    }
    assert(legal_step(level, goal, prev, pos(path[i])));
    assert(gval(gs, level, start, goal, prev) < i32::MAX);
    assert(!open_has(open, prev, gval(gs, level, start, goal, prev)));
    assert(expanded(level, start, goal, gs, prev));
    let q = choose|q: int| 0 <= q < 8 && #[trigger] nbr8(prev, q) == pos(path[i]) && path_step_ok(level, goal, prev, q);
    assert(path_step_ok(level, goal, prev, q));
}

} // verus!

verus! {

/// `w` walks from `start` by legal steps (`w.len() - 1` of them).
pub open spec fn walk_from(level: Level, start: (i32, i32), goal: (i32, i32), w: Seq<(int, int)>) -> bool {
    &&& w.len() > 0
    &&& w[0] == pos(start)
    &&& forall|i: int| 0 <= i < w.len() - 1 ==> legal_step(level, goal, #[trigger] w[i], w[i + 1])
}

/// King-move distance to the goal: the search's estimate of what is left.
pub open spec fn to_goal(n: (int, int), goal: (i32, i32)) -> int {
    let dx = abs_int(n.0 - goal.0);
    let dy = abs_int(n.1 - goal.1);
    if dx >= dy { dx } else { dy }
}

/// The search's optimality bookkeeping: the `closed` (expanded) tiles have costs no walk beats,
/// and their legal steps lead to costs at most one more; every other costed tile (but `except`)
/// has an open entry at its cost; no closed tile does, the goal is never closed, and no tile has
/// two open entries at one cost.
pub closed spec fn search_opt(level: Level, start: (i32, i32), goal: (i32, i32), gs: Seq<i32>, open: Seq<(i64, i32, i32, i32)>,
    closed: Set<(int, int)>, except: Option<(int, int)>) -> bool {
    &&& forall|c: (int, int)| #[trigger] closed.contains(c) ==> gval(gs, level, start, goal, c) < i32::MAX
    &&& forall|c: (int, int), q: int| closed.contains(c) && 0 <= q < 8 && #[trigger] path_step_ok(level, goal, c, q)
        ==> gval(gs, level, start, goal, nbr8(c, q)) <= gval(gs, level, start, goal, c) + 1
    &&& forall|w: Seq<(int, int)>| #[trigger] walk_from(level, start, goal, w) && closed.contains(w.last())
        ==> gval(gs, level, start, goal, w.last()) <= w.len() - 1
    &&& forall|n: (int, int)| #[trigger] gval(gs, level, start, goal, n) < i32::MAX && !closed.contains(n) && except != Some(n)
        ==> open_has(open, n, gval(gs, level, start, goal, n))
    &&& forall|c: (int, int)| #[trigger] closed.contains(c) ==> !open_has(open, c, gval(gs, level, start, goal, c))
    &&& !closed.contains(pos(goal))
    &&& forall|i: int, j: int| 0 <= i < j < open.len() && entry_pos(open[i]) == entry_pos(open[j]) ==> open[i].1 != open[j].1
}

/// The estimate changes by at most one per legal step, so along a walk it never drops faster
/// than the steps taken.
proof fn lemma_to_goal_walk(level: Level, start: (i32, i32), goal: (i32, i32), w: Seq<(int, int)>, i: int, j: int)
    requires
        walk_from(level, start, goal, w),
        0 <= i <= j < w.len(),
    ensures
        to_goal(w[i], goal) <= (j - i) + to_goal(w[j], goal),
    decreases j - i,
{
    if i < j {
        lemma_to_goal_walk(level, start, goal, w, i + 1, j);
        assert(legal_step(level, goal, w[i], w[i + 1]));
        let k = choose|k: int| 0 <= k < 8 && #[trigger] nbr8(w[i], k) == w[i + 1] && path_step_ok(level, goal, w[i], k);
        assert(-1 <= flow_dir(k).0 <= 1 && -1 <= flow_dir(k).1 <= 1);
    }
}

/// A costed tile is reached by a walk no longer than its cost: follow its links back to the start.
proof fn lemma_walk_to(level: Level, start: (i32, i32), goal: (i32, i32), gs: Seq<i32>, cf: Seq<Option<(i32, i32)>>,
    open: Seq<(i64, i32, i32, i32)>, dom: Set<int>, except: Option<(int, int)>, n: (int, int)) -> (w: Seq<(int, int)>)
    requires
        search_inv(level, start, goal, gs, cf, open, dom, except),
        gval(gs, level, start, goal, n) < i32::MAX,
    ensures
        walk_from(level, start, goal, w),
        w.last() == n,
        w.len() - 1 <= gval(gs, level, start, goal, n),
    decreases gval(gs, level, start, goal, n),
{
    lemma_search_facts(level, start, goal, gs, cf, open, dom, except);
    if n == pos(start) {
        seq![n]
    } else {
        assert(link_ok(level, start, goal, gs, cf, n));
        let p = pos(cf[slot_of(level, start, goal, n)]->0);
        let wp = lemma_walk_to(level, start, goal, gs, cf, open, dom, except, p);
        let w = wp.push(n);
        assert forall|i: int| 0 <= i < w.len() - 1 implies legal_step(level, goal, #[trigger] w[i], w[i + 1]) by {
            if i < wp.len() - 1 {
                assert(w[i] == wp[i] && w[i + 1] == wp[i + 1]);
            } else {
                assert(w[i] == p && w[i + 1] == n);
            }
        }
        w
    }
}

proof fn lemma_walk_prefix(level: Level, start: (i32, i32), goal: (i32, i32), w: Seq<(int, int)>, j: int)
    requires
        walk_from(level, start, goal, w),
        0 <= j < w.len(),
    ensures
        walk_from(level, start, goal, w.subrange(0, j + 1)),
        w.subrange(0, j + 1).last() == w[j],
{
    let p = w.subrange(0, j + 1);
    assert forall|i: int| 0 <= i < p.len() - 1 implies legal_step(level, goal, #[trigger] p[i], p[i + 1]) by {
        assert(p[i] == w[i] && p[i + 1] == w[i + 1]);
    }
}

/// The first tile of `w`, from `i` on, that is not closed.
proof fn lemma_first_open(w: Seq<(int, int)>, closed: Set<(int, int)>, i: int) -> (j: int)
    requires
        0 <= i < w.len(),
        forall|l: int| 0 <= l < i ==> closed.contains(#[trigger] w[l]),
        !closed.contains(w.last()),
    ensures
        i <= j < w.len(),
        !closed.contains(w[j]),
        forall|l: int| 0 <= l < j ==> closed.contains(#[trigger] w[l]),
    decreases w.len() - i,
{
    if !closed.contains(w[i]) {
        i
    } else {
        lemma_first_open(w, closed, i + 1)
    }
}

proof fn lemma_estimate(e: (i64, i32, i32, i32), goal: (i32, i32))
    ensures
        spec_chebyshev((e.2, e.3), goal) == to_goal(entry_pos(e), goal),
{
}

/// The cost of the tile of the cheapest open entry, when that entry is current, is beaten by no
/// walk: every walk to it passes a first unexpanded tile, whose open entry costs no less.
#[verifier::spinoff_prover]
proof fn lemma_opt_pop(level: Level, start: (i32, i32), goal: (i32, i32), gs: Seq<i32>, cf: Seq<Option<(i32, i32)>>,
    open: Seq<(i64, i32, i32, i32)>, dom: Set<int>, closed: Set<(int, int)>, k: int, w: Seq<(int, int)>)
    requires
        search_inv(level, start, goal, gs, cf, open, dom, None),
        search_opt(level, start, goal, gs, open, closed, None),
        search_fits(level, start, goal),
        0 <= k < open.len(),
        forall|j: int| 0 <= j < open.len() ==> !entry_before(#[trigger] open[j], open[k]),
        gval(gs, level, start, goal, entry_pos(open[k])) == open[k].1,
        walk_from(level, start, goal, w),
        w.last() == entry_pos(open[k]),
    ensures
        !closed.contains(entry_pos(open[k])),
        gval(gs, level, start, goal, entry_pos(open[k])) <= w.len() - 1,
{
    reveal(search_opt);
    lemma_search_facts(level, start, goal, gs, cf, open, dom, None);
    let e = open[k];
    let u = entry_pos(e);
    assert(open_has(open, u, gval(gs, level, start, goal, u)));
    assert(!closed.contains(u));
    let j = lemma_first_open(w, closed, 0);
    let y = w[j];
    if j > 0 {
        let x = w[j - 1];
        lemma_walk_prefix(level, start, goal, w, j - 1);
        assert(walk_from(level, start, goal, w.subrange(0, j)));
        assert(gval(gs, level, start, goal, x) <= j - 1);
        assert(legal_step(level, goal, w[j - 1], w[(j - 1) + 1]));
        let q = choose|q: int| 0 <= q < 8 && #[trigger] nbr8(x, q) == y && path_step_ok(level, goal, x, q);
        assert(gval(gs, level, start, goal, nbr8(x, q)) <= gval(gs, level, start, goal, x) + 1);
    }
    assert(gval(gs, level, start, goal, y) <= j);
    assert(gval(gs, level, start, goal, y) < i32::MAX);
    assert(open_has(open, y, gval(gs, level, start, goal, y)));
    let t = choose|t: int| 0 <= t < open.len() && entry_pos(#[trigger] open[t]) == y && open[t].1 == gval(gs, level, start, goal, y);
    reveal(search_inv);
    assert(entry_ok(level, start, goal, gs, open[t]));
    assert(entry_ok(level, start, goal, gs, e));
    lemma_estimate(open[t], goal);
    lemma_estimate(e, goal);
    assert(!entry_before(open[t], e));
    lemma_to_goal_walk(level, start, goal, w, j, w.len() - 1);
}

proof fn lemma_opt_start(level: Level, start: (i32, i32), goal: (i32, i32), gs: Seq<i32>, open: Seq<(i64, i32, i32, i32)>)
    requires
        open == seq![(spec_chebyshev(start, goal) as i64, 0i32, start.0, start.1)],
        forall|n: (int, int)| #[trigger] gval(gs, level, start, goal, n) < i32::MAX ==> n == pos(start),
        gval(gs, level, start, goal, pos(start)) == 0,
        start != goal,
    ensures
        search_opt(level, start, goal, gs, open, Set::empty(), None),
{
    reveal(search_opt);
    assert forall|n: (int, int)| #[trigger] gval(gs, level, start, goal, n) < i32::MAX && !Set::<(int, int)>::empty().contains(n)
        && None::<(int, int)> != Some(n) implies open_has(open, n, gval(gs, level, start, goal, n)) by {
        assert(entry_pos(open[0]) == n);
    }
}

/// A route is a walk from the start with as many steps as the route has tiles.
proof fn lemma_route_walk(level: Level, start: (i32, i32), goal: (i32, i32), p: Seq<(i32, i32)>) -> (w: Seq<(int, int)>)
    requires
        is_route(level, start, goal, p),
    ensures
        walk_from(level, start, goal, w),
        w.last() == pos(goal),
        w.len() - 1 == p.len(),
{
    let w = seq![pos(start)] + p.map_values(|t: (i32, i32)| pos(t));
    assert forall|i: int| 0 <= i < w.len() - 1 implies legal_step(level, goal, #[trigger] w[i], w[i + 1]) by {
        if i == 0 {
            assert(w[1] == pos(p[0]));
        } else {
            assert(w[i] == pos(p[i - 1]) && w[i + 1] == pos(p[i]));
            assert(legal_step(level, goal, pos(p[i - 1]), pos(p[(i - 1) + 1])));
        }
    }
    assert(w.last() == pos(p.last()));
    w
}

/// Relaxing a step from the expanded tile `c` to `m` keeps the bookkeeping: `m` cannot be closed,
/// since a walk through `c` would beat its cost.
#[verifier::spinoff_prover]
proof fn lemma_opt_relax(level: Level, start: (i32, i32), goal: (i32, i32), gs: Seq<i32>, cf: Seq<Option<(i32, i32)>>,
    open: Seq<(i64, i32, i32, i32)>, dom: Set<int>, closed: Set<(int, int)>, c: (i32, i32), q: int, g: i32,
    gs2: Seq<i32>, open2: Seq<(i64, i32, i32, i32)>)
    requires
        search_inv(level, start, goal, gs, cf, open, dom, Some(pos(c))),
        search_opt(level, start, goal, gs, open, closed, Some(pos(c))),
        search_fits(level, start, goal),
        gval(gs, level, start, goal, pos(c)) == g,
        0 <= q < 8,
        path_step_ok(level, goal, pos(c), q),
        g + 1 < gval(gs, level, start, goal, nbr8(pos(c), q)),
        gs2 == gs.update(slot_of(level, start, goal, nbr8(pos(c), q)), (g + 1) as i32),
        forall|n: (int, int)| #[trigger] gval(gs2, level, start, goal, n)
            == if n == nbr8(pos(c), q) { g + 1 } else { gval(gs, level, start, goal, n) },
        open2 == open.push(((g + 1 + spec_chebyshev((nbr8(pos(c), q).0 as i32, nbr8(pos(c), q).1 as i32), goal)) as i64, (g + 1) as i32,
            nbr8(pos(c), q).0 as i32, nbr8(pos(c), q).1 as i32)),
        i32::MIN <= nbr8(pos(c), q).0 <= i32::MAX,
        i32::MIN <= nbr8(pos(c), q).1 <= i32::MAX,
    ensures
        search_opt(level, start, goal, gs2, open2, closed, Some(pos(c))),
        !open_has(open, pos(c), g as int) ==> !open_has(open2, pos(c), g as int),
{
    reveal(search_opt);
    let m = nbr8(pos(c), q);
    lemma_search_facts(level, start, goal, gs, cf, open, dom, Some(pos(c)));
    // m is not closed: the walk to c, one step further, beats m's cost.
    assert(!closed.contains(m)) by {
        if closed.contains(m) {
            let wc = lemma_walk_to(level, start, goal, gs, cf, open, dom, Some(pos(c)), pos(c));
            let wm = wc.push(m);
            assert forall|i: int| 0 <= i < wm.len() - 1 implies legal_step(level, goal, #[trigger] wm[i], wm[i + 1]) by {
                if i < wc.len() - 1 {
                    assert(wm[i] == wc[i] && wm[i + 1] == wc[i + 1]);
                } else {
                    assert(wm[i] == pos(c) && wm[i + 1] == m);
                    assert(nbr8(pos(c), q) == m);
                }
            }
            assert(walk_from(level, start, goal, wm));
            assert(wm.last() == m);
        }
    }
    assert(m != pos(c));
    let e = open2[open.len() as int];
    assert(entry_pos(e) == m);
    reveal(search_inv);
    assert forall|c2: (int, int), q2: int| closed.contains(c2) && 0 <= q2 < 8 && #[trigger] path_step_ok(level, goal, c2, q2)
        implies gval(gs2, level, start, goal, nbr8(c2, q2)) <= gval(gs2, level, start, goal, c2) + 1 by {
        assert(gval(gs, level, start, goal, nbr8(c2, q2)) <= gval(gs, level, start, goal, c2) + 1);
    }
    assert forall|w: Seq<(int, int)>| #[trigger] walk_from(level, start, goal, w) && closed.contains(w.last())
        implies gval(gs2, level, start, goal, w.last()) <= w.len() - 1 by {
        assert(gval(gs, level, start, goal, w.last()) <= w.len() - 1);
    }
    assert forall|n: (int, int)| #[trigger] gval(gs2, level, start, goal, n) < i32::MAX && !closed.contains(n) && Some(pos(c)) != Some(n)
        implies open_has(open2, n, gval(gs2, level, start, goal, n)) by {
        if n == m {
            assert(open2[open.len() as int] == e);
        } else {
            assert(open_has(open, n, gval(gs, level, start, goal, n)));
            let i = choose|i: int| 0 <= i < open.len() && entry_pos(#[trigger] open[i]) == n && open[i].1 == gval(gs, level, start, goal, n);
            assert(open2[i] == open[i]);
        }
    }
    assert forall|c2: (int, int)| #[trigger] closed.contains(c2) implies !open_has(open2, c2, gval(gs2, level, start, goal, c2)) by {
        if open_has(open2, c2, gval(gs2, level, start, goal, c2)) {
            let i = choose|i: int| 0 <= i < open2.len() && entry_pos(#[trigger] open2[i]) == c2 && open2[i].1 == gval(gs2, level, start, goal, c2);
            if i < open.len() {
                assert(open2[i] == open[i]);
                assert(open_has(open, c2, gval(gs, level, start, goal, c2)));
            }
        }
    }
    assert forall|i: int, j: int| 0 <= i < j < open2.len() && entry_pos(open2[i]) == entry_pos(open2[j]) implies open2[i].1 != open2[j].1 by {
        if j == open.len() {
            assert(open2[i] == open[i]);
            assert(entry_ok(level, start, goal, gs, open[i]));
        } else {
            assert(open2[i] == open[i] && open2[j] == open[j]);
        }
    }
    if !open_has(open, pos(c), g as int) {
        if open_has(open2, pos(c), g as int) {
            let i = choose|i: int| 0 <= i < open2.len() && entry_pos(#[trigger] open2[i]) == pos(c) && open2[i].1 == g;
            if i < open.len() {
                assert(open2[i] == open[i]);
            }
        }
    }
}

/// Taking entry `k` off the open list: a stale entry leaves the bookkeeping as it was; a current
/// one hands its tile over to be expanded, with no entry left at its cost.
proof fn lemma_opt_pop_entry(level: Level, start: (i32, i32), goal: (i32, i32), gs: Seq<i32>, cf: Seq<Option<(i32, i32)>>,
    open: Seq<(i64, i32, i32, i32)>, dom: Set<int>, closed: Set<(int, int)>, k: int)
    requires
        search_inv(level, start, goal, gs, cf, open, dom, None),
        search_opt(level, start, goal, gs, open, closed, None),
        0 <= k < open.len(),
    ensures
        gval(gs, level, start, goal, entry_pos(open[k])) < open[k].1
            ==> search_opt(level, start, goal, gs, open.remove(k), closed, None),
        gval(gs, level, start, goal, entry_pos(open[k])) == open[k].1 ==> {
            &&& search_opt(level, start, goal, gs, open.remove(k), closed, Some(entry_pos(open[k])))
            &&& !open_has(open.remove(k), entry_pos(open[k]), open[k].1 as int)
        },
{
    reveal(search_opt);
    let e = open[k];
    let u = entry_pos(e);
    let o2 = open.remove(k);
    let stale = gval(gs, level, start, goal, u) < e.1;
    let ex = if stale { None } else { Some(u) };
    assert forall|n: (int, int)| #[trigger] gval(gs, level, start, goal, n) < i32::MAX && !closed.contains(n) && ex != Some(n)
        implies open_has(o2, n, gval(gs, level, start, goal, n)) by {
        let i = choose|i: int| 0 <= i < open.len() && entry_pos(#[trigger] open[i]) == n && open[i].1 == gval(gs, level, start, goal, n);
        assert(i != k);
        if i < k {
            assert(o2[i] == open[i]);
        } else {
            assert(o2[i - 1] == open[i]);
        }
    }
    assert forall|c2: (int, int)| #[trigger] closed.contains(c2) implies !open_has(o2, c2, gval(gs, level, start, goal, c2)) by {
        if open_has(o2, c2, gval(gs, level, start, goal, c2)) {
            let i = choose|i: int| 0 <= i < o2.len() && entry_pos(#[trigger] o2[i]) == c2 && o2[i].1 == gval(gs, level, start, goal, c2);
            if i < k {
                assert(o2[i] == open[i]);
            } else {
                assert(o2[i] == open[i + 1]);
            }
        }
    }
    assert forall|i: int, j: int| 0 <= i < j < o2.len() && entry_pos(o2[i]) == entry_pos(o2[j]) implies o2[i].1 != o2[j].1 by {
        let oi = if i < k { i } else { i + 1 };
        let oj = if j < k { j } else { j + 1 };
        assert(o2[i] == open[oi] && o2[j] == open[oj]);
    }
    if !stale {
        if open_has(o2, u, e.1 as int) {
            let i = choose|i: int| 0 <= i < o2.len() && entry_pos(#[trigger] o2[i]) == u && o2[i].1 == e.1;
            let oi = if i < k { i } else { i + 1 };
            assert(o2[i] == open[oi]);
            assert(oi != k);
        }
    }
}

/// Once every step out of `u` leads to a cost at most one more, and no walk beats `u`'s cost,
/// `u` is closed.
proof fn lemma_opt_close(level: Level, start: (i32, i32), goal: (i32, i32), gs: Seq<i32>, open: Seq<(i64, i32, i32, i32)>,
    closed: Set<(int, int)>, u: (int, int))
    requires
        search_opt(level, start, goal, gs, open, closed, Some(u)),
        u != pos(goal),
        gval(gs, level, start, goal, u) < i32::MAX,
        forall|q: int| 0 <= q < 8 && #[trigger] path_step_ok(level, goal, u, q)
            ==> gval(gs, level, start, goal, nbr8(u, q)) <= gval(gs, level, start, goal, u) + 1,
        forall|w: Seq<(int, int)>| #[trigger] walk_from(level, start, goal, w) && w.last() == u
            ==> gval(gs, level, start, goal, u) <= w.len() - 1,
        !open_has(open, u, gval(gs, level, start, goal, u)),
    ensures
        search_opt(level, start, goal, gs, open, closed.insert(u), None),
{
    reveal(search_opt);
    let c2 = closed.insert(u);
    assert forall|c: (int, int), q: int| c2.contains(c) && 0 <= q < 8 && #[trigger] path_step_ok(level, goal, c, q)
        implies gval(gs, level, start, goal, nbr8(c, q)) <= gval(gs, level, start, goal, c) + 1 by {
        if c != u {
            assert(closed.contains(c));
        }
    }
    assert forall|w: Seq<(int, int)>| #[trigger] walk_from(level, start, goal, w) && c2.contains(w.last())
        implies gval(gs, level, start, goal, w.last()) <= w.len() - 1 by {
        if w.last() != u {
            assert(closed.contains(w.last()));
        }
    }
}

/// A popped entry for the goal is current: the goal's own entry at its cost would come first.
proof fn lemma_goal_fresh(level: Level, start: (i32, i32), goal: (i32, i32), gs: Seq<i32>, cf: Seq<Option<(i32, i32)>>,
    open: Seq<(i64, i32, i32, i32)>, dom: Set<int>, closed: Set<(int, int)>, k: int)
    requires
        search_inv(level, start, goal, gs, cf, open, dom, None),
        search_opt(level, start, goal, gs, open, closed, None),
        0 <= k < open.len(),
        forall|j: int| 0 <= j < open.len() ==> !entry_before(#[trigger] open[j], open[k]),
        entry_pos(open[k]) == pos(goal),
    ensures
        gval(gs, level, start, goal, pos(goal)) == open[k].1,
{
    reveal(search_opt);
    reveal(search_inv);
    let e = open[k];
    assert(entry_ok(level, start, goal, gs, e));
    lemma_estimate(e, goal);
    assert(to_goal(pos(goal), goal) == 0);
    if gval(gs, level, start, goal, pos(goal)) < e.1 {
        assert(open_has(open, pos(goal), gval(gs, level, start, goal, pos(goal))));
        let t = choose|t: int| 0 <= t < open.len() && entry_pos(#[trigger] open[t]) == pos(goal)
            && open[t].1 == gval(gs, level, start, goal, pos(goal));
        assert(entry_ok(level, start, goal, gs, open[t]));
        lemma_estimate(open[t], goal);
        assert(!entry_before(open[t], e));
    }
}

/// `a` comes before `b` on the open list: by estimated total, then cost, then x, then y.
pub open spec fn entry_before(a: (i64, i32, i32, i32), b: (i64, i32, i32, i32)) -> bool {
    a.0 < b.0 || (a.0 == b.0 && (a.1 < b.1 || (a.1 == b.1 && (a.2 < b.2 || (a.2 == b.2 && a.3 < b.3)))))
}

/// The index of the first entry that no other entry comes before.
fn cheapest_entry(open: &Vec<(i64, i32, i32, i32)>) -> (k: usize)
    requires
        open@.len() > 0,
    ensures
        k < open@.len(),
        forall|j: int| 0 <= j < open@.len() ==> !entry_before(#[trigger] open@[j], open@[k as int]),
{
    let mut k: usize = 0;
    let mut i: usize = 1;
    while i < open.len()
        invariant
            open@.len() > 0,
            k < i <= open@.len(),
            forall|j: int| 0 <= j < i ==> !entry_before(#[trigger] open@[j], open@[k as int]),
        decreases open@.len() - i,
    {
        let a = open[i];
        let b = open[k];
        if a.0 < b.0 || (a.0 == b.0 && (a.1 < b.1 || (a.1 == b.1 && (a.2 < b.2 || (a.2 == b.2 && a.3 < b.3))))) {
            k = i;
        }
        i = i + 1;
    }
    k
}

/// A* search over one level: a shortest list of steps from `start` (left out) to `goal` (the
/// last one), moving like a king onto walkable tiles or the goal, and never diagonally between
/// two unwalkable tiles. Empty when `start` is the goal or no route reaches it.
#[verifier::spinoff_prover]
pub fn astar(start: (i32, i32), goal: (i32, i32), level: &Level) -> (path: VecDeque<(i32, i32)>)
    requires
        level.wf(),
        level.width <= i32::MAX,
        level.height <= i32::MAX,
        level.width * level.height + 2 < i32::MAX,
        i32::MIN < start.0 < i32::MAX,
        i32::MIN < start.1 < i32::MAX,
    ensures
        start == goal ==> path@.len() == 0,
        path@.len() > 0 ==> is_route(*level, start, goal, path@),
        path@.len() > 0 ==> forall|p: Seq<(i32, i32)>| #[trigger] is_route(*level, start, goal, p) ==> path@.len() <= p.len(),
        start != goal && path@.len() == 0 ==> forall|p: Seq<(i32, i32)>| !#[trigger] is_route(*level, start, goal, p),
{
    if start.0 == goal.0 && start.1 == goal.1 {
        return VecDeque::new();
    }
    let n_slots = level.width * level.height + 2;
    let mut gs: Vec<i32> = Vec::new();
    let mut cf: Vec<Option<(i32, i32)>> = Vec::new();
    let mut i: usize = 0;
    while i < n_slots
        invariant
            i <= n_slots,
            gs@.len() == i,
            cf@.len() == i,
            forall|j: int| 0 <= j < i ==> #[trigger] gs@[j] == i32::MAX,
        decreases n_slots - i,
    {
        gs.push(i32::MAX);
        cf.push(None);
        i = i + 1;
    }
    let s0 = path_slot(level, start, goal, start.0, start.1).unwrap();
    proof {
        lemma_slot_range(*level, start, goal, pos(start));
        lemma_search_start(*level, start, goal, gs@, cf@);
    }
    gs.set(s0, 0);
    let mut open: Vec<(i64, i32, i32, i32)> = Vec::new();
    open.push((chebyshev_wide(start, goal), 0, start.0, start.1));
    let ghost mut dom: Set<int> = set![s0 as int];
    assert(open@ =~= seq![(spec_chebyshev(start, goal) as i64, 0i32, start.0, start.1)]);
    let ghost mut closed: Set<(int, int)> = Set::empty();
    proof {
        lemma_opt_start(*level, start, goal, gs@, open@);
    }
    let dirs: [(i32, i32); 8] = [(-1, -1), (0, -1), (1, -1), (-1, 0), (1, 0), (-1, 1), (0, 1), (1, 1)];
    while open.len() > 0
        invariant
            search_fits(*level, start, goal),
            search_inv(*level, start, goal, gs@, cf@, open@, dom, None),
            search_opt(*level, start, goal, gs@, open@, closed, None),
            n_slots == level.width * level.height + 2,
            dirs@ == seq![(-1i32, -1i32), (0i32, -1i32), (1i32, -1i32), (-1i32, 0i32), (1i32, 0i32), (-1i32, 1i32), (0i32, 1i32), (1i32, 1i32)],
        decreases cost_sum(gs@), open@.len(),
    {
        proof {
            lemma_search_facts(*level, start, goal, gs@, cf@, open@, dom, None);
        }
        let k = cheapest_entry(&open);
        let ghost open0 = open@;
        let ghost sum0 = cost_sum(gs@);
        proof {
            lemma_search_pop(*level, start, goal, gs@, cf@, open@, dom, k as int);
            lemma_opt_pop_entry(*level, start, goal, gs@, cf@, open@, dom, closed, k as int);
            if entry_pos(open0[k as int]) == pos(goal) {
                lemma_goal_fresh(*level, start, goal, gs@, cf@, open@, dom, closed, k as int);
            }
            if gval(gs@, *level, start, goal, entry_pos(open0[k as int])) == open0[k as int].1 {
                assert forall|w: Seq<(int, int)>| #[trigger] walk_from(*level, start, goal, w) && w.last() == entry_pos(open0[k as int])
                    implies gval(gs@, *level, start, goal, entry_pos(open0[k as int])) <= w.len() - 1 by {
                    lemma_opt_pop(*level, start, goal, gs@, cf@, open0, dom, closed, k as int, w);
                }
            }
        }
        let (_, g, x, y) = open.remove(k);
        let ghost c = (x as int, y as int);
        assert(c == entry_pos(open0[k as int]));
        if x == goal.0 && y == goal.1 {
            // Walk the links back from the goal to the start.
            let mut path: VecDeque<(i32, i32)> = VecDeque::new();
            let mut cur = (x, y);
            while !(cur.0 == start.0 && cur.1 == start.1)
                invariant
                    search_fits(*level, start, goal),
                    gs@.len() == n_slots,
                    cf@.len() == n_slots,
                    n_slots == level.width * level.height + 2,
                    forall|n: (int, int)| 0 <= #[trigger] gval(gs@, *level, start, goal, n) <= i32::MAX,
                    forall|n: (int, int)| n != pos(start) && #[trigger] gval(gs@, *level, start, goal, n) < i32::MAX
                        ==> link_ok(*level, start, goal, gs@, cf@, n),
                    gval(gs@, *level, start, goal, pos(cur)) < i32::MAX,
                    path@.len() + gval(gs@, *level, start, goal, pos(cur)) <= gval(gs@, *level, start, goal, pos(goal)),
                    gval(gs@, *level, start, goal, pos(start)) == 0,
                    forall|w: Seq<(int, int)>| #[trigger] walk_from(*level, start, goal, w) && w.last() == pos(goal)
                        ==> gval(gs@, *level, start, goal, pos(goal)) <= w.len() - 1,
                    path@.len() == 0 ==> cur == goal,
                    path@.len() > 0 ==> path@.last() == goal && legal_step(*level, goal, pos(cur), pos(path@[0]))
                        && forall|j: int| 0 <= j < path@.len() - 1 ==> legal_step(*level, goal, pos(#[trigger] path@[j]), pos(path@[j + 1])),
                decreases gval(gs@, *level, start, goal, pos(cur)),
            {
                let ghost before = path@;
                let ghost cur0 = cur;
                proof {
                    assert(link_ok(*level, start, goal, gs@, cf@, pos(cur)));
                    lemma_slot_range(*level, start, goal, pos(cur));
                }
                path.push_front(cur);
                let s = path_slot(level, start, goal, cur.0, cur.1).unwrap();
                cur = cf[s].unwrap();
                assert forall|j: int| 0 <= j < path@.len() - 1 implies legal_step(*level, goal, pos(#[trigger] path@[j]), pos(path@[j + 1])) by {
                    if j > 0 {
                        assert(path@[j] == before[j - 1]);
                        assert(path@[j + 1] == before[j]);
                    }
                }
            }
            proof {
                assert forall|p: Seq<(i32, i32)>| #[trigger] is_route(*level, start, goal, p) implies path@.len() <= p.len() by {
                    let w = lemma_route_walk(*level, start, goal, p);
                }
            }
            return path;
        }
        proof {
            lemma_slot_range(*level, start, goal, c);
        }
        let cs = path_slot(level, start, goal, x, y).unwrap();
        if gs[cs] == g {
            let mut q: usize = 0;
            while q < 8
                invariant
                    search_fits(*level, start, goal),
                    search_inv(*level, start, goal, gs@, cf@, open@, dom, Some(c)),
                    n_slots == level.width * level.height + 2,
                    gs@.len() == n_slots,
                    cf@.len() == n_slots,
                    c == (x as int, y as int),
                    c != pos(goal),
                    c == pos(start) || level.spec_walkable(c.0, c.1),
                    gval(gs@, *level, start, goal, c) == g,
                    0 <= g < n_slots,
                    q <= 8,
                    search_opt(*level, start, goal, gs@, open@, closed, Some(c)),
                    !open_has(open@, c, g as int),
                    forall|w: Seq<(int, int)>| #[trigger] walk_from(*level, start, goal, w) && w.last() == c
                        ==> gval(gs@, *level, start, goal, c) <= w.len() - 1,
                    forall|q2: int| 0 <= q2 < q && #[trigger] path_step_ok(*level, goal, c, q2)
                        ==> gval(gs@, *level, start, goal, nbr8(c, q2)) <= g + 1,
                    cost_sum(gs@) <= sum0,
                    cost_sum(gs@) == sum0 ==> open@.len() == open0.len() - 1,
                    dirs@ == seq![(-1i32, -1i32), (0i32, -1i32), (1i32, -1i32), (-1i32, 0i32), (1i32, 0i32), (-1i32, 1i32), (0i32, 1i32), (1i32, 1i32)],
                decreases 8 - q,
            {
                let (dx, dy) = dirs[q];
                assert((dx as int, dy as int) == flow_dir(q as int));
                let nx = x + dx;
                let ny = y + dy;
                let ghost m = nbr8(c, q as int);
                assert(m == (nx as int, ny as int));
                // The goal may be stepped on whatever stands there.
                let onto = level.walkable(nx, ny) || (nx == goal.0 && ny == goal.1);
                let squeezed = dx != 0 && dy != 0 && !level.walkable(nx, y) && !level.walkable(x, ny);
                assert((onto && !squeezed) == path_step_ok(*level, goal, c, q as int));
                if onto && !squeezed {
                    let ng = g + 1;
                    proof {
                        lemma_slot_range(*level, start, goal, m);
                    }
                    let ms = path_slot(level, start, goal, nx, ny).unwrap();
                    if ng < gs[ms] {
                        let ghost gs0 = gs@;
                        let ghost cf0 = cf@;
                        let ghost open_before = open@;
                        let ghost dom0 = dom;
                        proof {
                            lemma_search_relax(*level, start, goal, gs@, cf@, open@, dom, (x, y), q as int, g);
                            lemma_gval_update(gs@, *level, start, goal, m, ng);
                            dom = dom.insert(ms as int);
                        }
                        gs.set(ms, ng);
                        cf.set(ms, Some((x, y)));
                        open.push((ng as i64 + chebyshev_wide((nx, ny), goal), ng, nx, ny));
                        proof {
                            lemma_opt_relax(*level, start, goal, gs0, cf0, open_before, dom0, closed, (x, y), q as int, g, gs@, open@);
                        }
                    }
                }
                q = q + 1;
            }
            proof {
                lemma_search_facts(*level, start, goal, gs@, cf@, open@, dom, Some(c));
                lemma_search_close(*level, start, goal, gs@, cf@, open@, dom, c);
                lemma_opt_close(*level, start, goal, gs@, open@, closed, c);
                closed = closed.insert(c);
            }
        }
        proof {
            lemma_search_facts(*level, start, goal, gs@, cf@, open@, dom, None);
        }
    }
    proof {
        assert forall|p: Seq<(i32, i32)>| !#[trigger] is_route(*level, start, goal, p) by {
            lemma_search_exhausted(*level, start, goal, gs@, cf@, open@, dom, p);
        }
    }
    VecDeque::new()
}

} // verus!
