use space_qud::level::{Level, Tile};
use space_qud::locations::icy_planet::find_village_site;
use space_qud::movement::{direction_name, read_direction, resolve_move};
use space_qud::timing::{bump_render_frame, is_sim_frame, should_run_sim_step, Clock, TimeMode, TurnBasedWorldState};

#[test]
fn direction_keys() {
    assert_eq!(read_direction(true, false, false, false), (0, -1));
    assert_eq!(read_direction(true, true, false, false), (0, 0));
    assert_eq!(read_direction(false, true, true, false), (-1, 1));
    assert_eq!(read_direction(false, false, true, true), (0, 0));
    assert_eq!(read_direction(false, false, false, true), (1, 0));
}

#[test]
fn diagonal_needs_an_open_side() {
    let mut level = Level::new(3, 3, Tile::Grass);
    level.set(1, 0, Tile::Wall);
    level.set(0, 1, Tile::Wall);
    let free = |_: i32, _: i32| false;
    assert_eq!(resolve_move(&level, 0, 0, 1, 1, false, &free), (0, 0));
    level.set(0, 1, Tile::Grass);
    assert_eq!(resolve_move(&level, 0, 0, 1, 1, false, &free), (1, 1));
}

#[test]
fn blocked_diagonal_slides() {
    let level = Level::new(3, 3, Tile::Grass);
    let crab = |x: i32, y: i32| (x, y) == (1, 1);
    assert_eq!(resolve_move(&level, 0, 0, 1, 1, false, &crab), (1, 0));
    let crabs = |x: i32, y: i32| (x, y) == (1, 1) || (x, y) == (1, 0);
    assert_eq!(resolve_move(&level, 0, 0, 1, 1, false, &crabs), (0, 1));
}

#[test]
fn straight_steps_and_phasing() {
    let mut level = Level::new(3, 1, Tile::Grass);
    level.set(1, 0, Tile::Wall);
    let free = |_: i32, _: i32| false;
    assert_eq!(resolve_move(&level, 0, 0, 1, 0, false, &free), (0, 0));
    assert_eq!(resolve_move(&level, 0, 0, 1, 0, true, &free), (1, 0));
    assert_eq!(resolve_move(&level, 0, 0, -1, 0, false, &free), (0, 0));
    let all = |_: i32, _: i32| true;
    assert_eq!(resolve_move(&level, 0, 0, 1, 0, true, &all), (0, 0));
}

#[test]
fn village_on_snow_nearest_the_dock() {
    let level = Level::new(300, 300, Tile::BrightGround);
    assert_eq!(find_village_site(&level, &[], (150, 150)), (126, 132));
}

#[test]
fn village_on_dry_ground_when_no_snow() {
    let level = Level::new(300, 300, Tile::Grass);
    assert_eq!(find_village_site(&level, &[], (150, 150)), (126, 132));
}

#[test]
fn village_falls_back_beside_the_dock() {
    let level = Level::new(300, 300, Tile::Wall);
    assert_eq!(find_village_site(&level, &[(10, 10)], (150, 150)), (158, 158));
    assert_eq!(find_village_site(&level, &[], (300, -50)), (250, 4));
}

#[test]
fn compass_names() {
    assert_eq!(direction_name(0, -1), "N");
    assert_eq!(direction_name(1, 1), "SE");
    assert_eq!(direction_name(-1, 0), "W");
    assert_eq!(direction_name(0, 0), "?");
    assert_eq!(direction_name(2, 0), "?");
}

#[test]
fn turns_and_frames() {
    let mut clock = Clock::new();
    let mut tb = TurnBasedWorldState::default();
    assert_eq!((clock.time, clock.mode), (0, TimeMode::TurnBased));
    assert!(!should_run_sim_step(8, &clock, &tb));
    clock.spend_turn(&mut tb);
    assert_eq!(clock.time, 1);
    assert!(tb.world_tick_pending);
    assert!(should_run_sim_step(8, &clock, &tb));
    assert!(!should_run_sim_step(9, &clock, &tb));
    assert!(!is_sim_frame(0));
    assert!(is_sim_frame(16));
    let mut frame = 7u64;
    bump_render_frame(&mut frame, &mut clock);
    assert_eq!((frame, clock.time), (8, 1));
    clock.mode = TimeMode::RealTime;
    let mut frame = 15u64;
    bump_render_frame(&mut frame, &mut clock);
    assert_eq!((frame, clock.time), (16, 2));
    let mut top = u64::MAX;
    bump_render_frame(&mut top, &mut clock);
    assert_eq!(top, u64::MAX);
}
