//! Turning the direction keys into a step and resolving that step against walls and creatures.
use vstd::prelude::*;
use crate::level::Level;

verus! {

/// The step the held direction keys ask for: each axis moves when exactly one of its two keys
/// is held.
pub fn read_direction(up: bool, down: bool, left: bool, right: bool) -> (d: (i32, i32))
    ensures
        d.0 == (if left && !right { -1int } else if right && !left { 1int } else { 0int }),
        d.1 == (if up && !down { -1int } else if down && !up { 1int } else { 0int }),
{
    let dx = if left && !right { -1 } else if right && !left { 1 } else { 0 };
    let dy = if up && !down { -1 } else if down && !up { 1 } else { 0 };
    (dx, dy)
}

/// The step taken: straight steps need their target passable; a diagonal needs its target and
/// one of the two tiles beside it passable, else it slides along whichever axis is open.
pub open spec fn chosen_step(dx: i32, dy: i32, pass_diag: bool, pass_h: bool, pass_v: bool) -> (i32, i32) {
    if dx != 0 && dy != 0 {
        if pass_diag && (pass_h || pass_v) {
            (dx, dy)
        } else if pass_h {
            (dx, 0)
        } else if pass_v {
            (0, dy)
        } else {
            (0, 0)
        }
    } else if pass_diag {
        (dx, dy)
    } else {
        (0, 0)
    }
}

/// Whether the mover may enter `(x, y)`: walkable (or phasing through walls) and, by the answer
/// `blocked` of the creature check, not held by a creature.
pub open spec fn may_enter(level: Level, phasing: bool, x: int, y: int, blocked: bool) -> bool {
    (phasing || level.spec_walkable(x, y)) && !blocked
}

/// The creature check was asked about `(x, y)` and answered `blocked`, unless the tile itself
/// already stops the mover.
pub open spec fn asked<F: Fn(i32, i32) -> bool>(f: F, level: Level, phasing: bool, x: i32, y: i32, blocked: bool) -> bool {
    (phasing || level.spec_walkable(x as int, y as int)) ==> f.ensures((x, y), blocked)
}

fn passable<F: Fn(i32, i32) -> bool>(level: &Level, phasing: bool, entity_blocked: &F, x: i32, y: i32) -> (r: (bool, Ghost<bool>))
    requires
        level.wf(),
        forall|a: i32, b: i32| #[trigger] entity_blocked.requires((a, b)),
    ensures
        asked(*entity_blocked, *level, phasing, x, y, r.1@),
        r.0 == may_enter(*level, phasing, x as int, y as int, r.1@),
{
    if phasing || level.walkable(x, y) {
        let b = entity_blocked(x, y);
        (!b, Ghost(b))
    } else {
        (false, Ghost(false))
    }
}

/// Resolves a step of `(dx, dy)` from `(px, py)` (see `chosen_step`); `entity_blocked` tells
/// whether a creature holds a tile, and is asked only about tiles the mover could otherwise enter.
pub fn resolve_move<F: Fn(i32, i32) -> bool>(level: &Level, px: i32, py: i32, dx: i32, dy: i32, phasing: bool, entity_blocked: &F)
    -> (step: (i32, i32))
    requires
        level.wf(),
        forall|a: i32, b: i32| #[trigger] entity_blocked.requires((a, b)),
        i32::MIN <= px + dx <= i32::MAX,
        i32::MIN <= py + dy <= i32::MAX,
    ensures
        exists|bd: bool, bh: bool, bv: bool| {
            &&& asked(*entity_blocked, *level, phasing, (px + dx) as i32, (py + dy) as i32, bd)
            &&& (dx != 0 && dy != 0) ==> asked(*entity_blocked, *level, phasing, (px + dx) as i32, py, bh)
            &&& (dx != 0 && dy != 0) ==> asked(*entity_blocked, *level, phasing, px, (py + dy) as i32, bv)
            &&& step == #[trigger] chosen_step(dx, dy, may_enter(*level, phasing, px + dx, py + dy, bd),
                may_enter(*level, phasing, px + dx, py as int, bh), may_enter(*level, phasing, px as int, py + dy, bv))
        },
{
    let (pd, Ghost(bd)) = passable(level, phasing, entity_blocked, px + dx, py + dy);
    if dx != 0 && dy != 0 {
        let (ph, Ghost(bh)) = passable(level, phasing, entity_blocked, px + dx, py);
        let (pv, Ghost(bv)) = passable(level, phasing, entity_blocked, px, py + dy);
        let step = if pd && (ph || pv) {
            (dx, dy)
        } else if ph {
            (dx, 0)
        } else if pv {
            (0, dy)
        } else {
            (0, 0)
        };
        assert(step == chosen_step(dx, dy, may_enter(*level, phasing, px + dx, py + dy, bd),
            may_enter(*level, phasing, px + dx, py as int, bh), may_enter(*level, phasing, px as int, py + dy, bv)));
        step
    } else {
        let step = if pd { (dx, dy) } else { (0, 0) };
        assert(step == chosen_step(dx, dy, may_enter(*level, phasing, px + dx, py + dy, bd),
            may_enter(*level, phasing, px + dx, py as int, false), may_enter(*level, phasing, px as int, py + dy, false)));
        step
    }
}

/// A diagonal step is taken in full exactly when its target can be entered and at least one of
/// the two tiles beside it can, whichever one that is: swapping the two sides never changes
/// whether it is taken. Otherwise the mover slides along an axis whose tile it can enter (the
/// horizontal one when both are open), never onto one it cannot, and stays put only when neither
/// side is open.
pub proof fn law_diagonal_step(dx: i32, dy: i32, pass_diag: bool, pass_h: bool, pass_v: bool)
    requires
        dx != 0,
        dy != 0,
    ensures
        (chosen_step(dx, dy, pass_diag, pass_h, pass_v) == (dx, dy)) == (pass_diag && (pass_h || pass_v)),
        (chosen_step(dx, dy, pass_diag, pass_h, pass_v) == (dx, dy)) == (chosen_step(dx, dy, pass_diag, pass_v, pass_h) == (dx, dy)),
        chosen_step(dx, dy, pass_diag, pass_h, pass_v) == (dx, 0i32) ==> pass_h,
        chosen_step(dx, dy, pass_diag, pass_h, pass_v) == (0i32, dy) ==> pass_v,
        (chosen_step(dx, dy, pass_diag, pass_h, pass_v) == (0i32, 0i32)) == (!pass_h && !pass_v),
        !(pass_diag && (pass_h || pass_v)) && pass_h ==> chosen_step(dx, dy, pass_diag, pass_h, pass_v) == (dx, 0i32),
        ({
            let s = chosen_step(dx, dy, pass_diag, pass_h, pass_v);
            s == (dx, dy) || s == (dx, 0i32) || s == (0i32, dy) || s == (0i32, 0i32)
        }),
{
}

/// A tile held by a creature is never entered; a tile that is not walkable only by a phasing
/// mover; any other tile can be entered.
pub proof fn law_may_enter(level: Level, phasing: bool, x: int, y: int, blocked: bool)
    ensures
        blocked ==> !may_enter(level, phasing, x, y, blocked),
        !phasing && !level.spec_walkable(x, y) ==> !may_enter(level, phasing, x, y, blocked),
        !blocked && (phasing || level.spec_walkable(x, y)) ==> may_enter(level, phasing, x, y, blocked),
{
}

/// A straight step is taken when its target can be entered, and otherwise the mover stays put.
pub proof fn law_straight_step(dx: i32, dy: i32, pass_diag: bool, pass_h: bool, pass_v: bool)
    requires
        dx == 0 || dy == 0,
    ensures
        chosen_step(dx, dy, pass_diag, pass_h, pass_v) == (if pass_diag { (dx, dy) } else { (0i32, 0i32) }),
{
}

/// The compass name of a step.
pub open spec fn spec_direction_name(dx: i32, dy: i32) -> Seq<char> {
    if dx == 0 && dy == -1 { "N"@ }
    else if dx == 0 && dy == 1 { "S"@ }
    else if dx == -1 && dy == 0 { "W"@ }
    else if dx == 1 && dy == 0 { "E"@ }
    else if dx == -1 && dy == -1 { "NW"@ }
    else if dx == 1 && dy == -1 { "NE"@ }
    else if dx == -1 && dy == 1 { "SW"@ }
    else if dx == 1 && dy == 1 { "SE"@ }
    else { "?"@ }
}

/// A king-move step is named by its north or south part followed by its west or east part; any
/// other step is `?`.
pub proof fn law_direction_name(dx: i32, dy: i32)
    ensures
        (-1 <= dx <= 1 && -1 <= dy <= 1 && !(dx == 0 && dy == 0)) ==> spec_direction_name(dx, dy)
            == (if dy < 0 { seq!['N'] } else if dy > 0 { seq!['S'] } else { Seq::<char>::empty() })
            + (if dx < 0 { seq!['W'] } else if dx > 0 { seq!['E'] } else { Seq::<char>::empty() }),
        !(-1 <= dx <= 1 && -1 <= dy <= 1 && !(dx == 0 && dy == 0)) ==> spec_direction_name(dx, dy) == seq!['?'],
{
    reveal_strlit("N");
    reveal_strlit("S");
    reveal_strlit("W");
    reveal_strlit("E");
    reveal_strlit("NW");
    reveal_strlit("NE");
    reveal_strlit("SW");
    reveal_strlit("SE");
    reveal_strlit("?");
    let v = if dy < 0 { seq!['N'] } else if dy > 0 { seq!['S'] } else { Seq::<char>::empty() };
    let h = if dx < 0 { seq!['W'] } else if dx > 0 { seq!['E'] } else { Seq::<char>::empty() };
    if -1 <= dx <= 1 && -1 <= dy <= 1 && !(dx == 0 && dy == 0) {
        assert(spec_direction_name(dx, dy) =~= v + h);
    } else {
        assert(spec_direction_name(dx, dy) =~= seq!['?']);
    }
}

fn owned(s: &str) -> (r: String)
    ensures
        r@ == s@,
{
    let r = s.to_string();
    proof {
        vstd::string::to_string_from_display_ensures_for_str(s, r);
    }
    r
}

/// The compass name of a step (`?` for no king-move step).
pub fn direction_name(dx: i32, dy: i32) -> (s: String)
    ensures
        s@ == spec_direction_name(dx, dy),
{
    let name: &str = if dx == 0 && dy == -1 { "N" }
        else if dx == 0 && dy == 1 { "S" }
        else if dx == -1 && dy == 0 { "W" }
        else if dx == 1 && dy == 0 { "E" }
        else if dx == -1 && dy == -1 { "NW" }
        else if dx == 1 && dy == -1 { "NE" }
        else if dx == -1 && dy == 1 { "SW" }
        else if dx == 1 && dy == 1 { "SE" }
        else { "?" };
    owned(name)
}

} // verus!
