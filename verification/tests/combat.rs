use space_qud::combat::{bump_attack, chebyshev, compute_flow_field, resolve_damage, step_toward, FlowField};
use space_qud::level::{Level, Tile};

#[test]
fn no_armor_deals_full_damage() {
    assert_eq!(resolve_damage(5, 0), 5);
}

#[test]
fn armor_reduces_damage() {
    assert_eq!(resolve_damage(5, 1), 4);
}

#[test]
fn armor_cannot_go_below_zero() {
    assert_eq!(resolve_damage(2, 3), 0);
}

#[test]
fn chain_armor_dr() {
    assert_eq!(resolve_damage(4, 2), 2);
}

#[test]
fn zero_attack_deals_no_damage() {
    assert_eq!(resolve_damage(0, 1), 0);
}

#[test]
fn bump_attack_kills_at_zero_hp() {
    let mut hp = 4;
    assert!(bump_attack(5, &mut hp, 1));
    assert_eq!(hp, 0);
    let mut hp = 10;
    assert!(!bump_attack(5, &mut hp, 2));
    assert_eq!(hp, 7);
}

#[test]
fn bump_attack_through_heavy_armor_does_nothing() {
    let mut hp = 3;
    assert!(!bump_attack(1, &mut hp, 5));
    assert_eq!(hp, 3);
}

#[test]
fn step_toward_moves_one_king_step() {
    assert_eq!(step_toward(0, 0, 5, -3), (1, -1));
    assert_eq!(step_toward(4, 4, 4, 9), (0, 1));
    assert_eq!(step_toward(2, 2, 2, 2), (0, 0));
}

#[test]
fn chebyshev_is_the_larger_axis_gap() {
    assert_eq!(chebyshev((0, 0), (3, -7)), 7);
    assert_eq!(chebyshev((5, 5), (1, 4)), 4);
}

fn open_room(w: usize, h: usize) -> Level {
    Level::new(w, h, Tile::StationFloor)
}

#[test]
fn flow_field_points_back_to_the_player() {
    let level = open_room(5, 5);
    let mut flow = FlowField::default();
    compute_flow_field(&mut flow, 2, 2, 0, &level);
    assert_eq!(flow.next_step(2, 2), Some((2, 2)));
    assert_eq!(flow.next_step(1, 1), Some((2, 2)));
    assert_eq!(flow.next_step(0, 0), Some((1, 1)));
    assert_eq!(flow.next_step(2, 0), Some((1, 1)));
    assert_eq!(flow.next_step(4, 4), Some((3, 3)));
    // Off the level nothing is reachable, and far away is outside the window.
    assert_eq!(flow.next_step(10, 10), None);
    assert_eq!(flow.next_step(100, 100), None);
}

#[test]
fn flow_field_routes_around_walls_and_reaches_the_origin() {
    let mut level = open_room(7, 3);
    // A wall across the middle column, open at the bottom.
    level.set(3, 0, Tile::StationWall);
    level.set(3, 1, Tile::StationWall);
    let mut flow = FlowField::default();
    compute_flow_field(&mut flow, 0, 0, 0, &level);
    // Walk the field from the far side back to the origin.
    let mut at = (6, 0);
    let mut steps = 0;
    while at != (0, 0) {
        let next = flow.next_step(at.0, at.1).expect("reachable tile");
        assert!(chebyshev(at, next) == 1);
        assert!(level.walkable(next.0, next.1));
        at = next;
        steps += 1;
        assert!(steps < 20);
    }
    // The wall itself is never part of the field.
    assert_eq!(flow.next_step(3, 0), None);
}

#[test]
fn flow_field_is_reused_for_the_same_spot() {
    let mut level = open_room(5, 5);
    let mut flow = FlowField::default();
    compute_flow_field(&mut flow, 1, 1, 0, &level);
    assert_eq!(flow.next_step(0, 0), Some((1, 1)));
    // The level changes but the player has not moved: the cached field stays.
    level.set(0, 0, Tile::StationWall);
    compute_flow_field(&mut flow, 1, 1, 0, &level);
    assert_eq!(flow.next_step(0, 0), Some((1, 1)));
    // A move triggers a rebuild, which now sees the wall.
    compute_flow_field(&mut flow, 2, 2, 0, &level);
    assert_eq!(flow.next_step(0, 0), None);
}
