use space_qud::fov::{compute_fov, FovGrid};
use space_qud::level::{Level, Tile};

fn render_fov(fov: &FovGrid, level: &Level, px: i32, py: i32) -> String {
    let mut s = String::new();
    for y in 0..level.height as i32 {
        for x in 0..level.width as i32 {
            s.push(if (x, y) == (px, py) {
                '@'
            } else if !fov.is_visible(x as usize, y as usize) {
                '?'
            } else if level.get(x, y).is_some_and(|t| t.opaque()) {
                '#'
            } else {
                '.'
            });
        }
        s.push('\n');
    }
    s
}

fn bedroom() -> Level {
    // #####
    // #...#
    // #...D.@
    // #...#
    // #####
    let mut level = Level::new(7, 5, Tile::StationFloor);
    for x in 0..5 {
        level.set(x, 0, Tile::StationWall);
        level.set(x, 4, Tile::StationWall);
    }
    for y in 0..5 {
        level.set(0, y, Tile::StationWall);
    }
    level.set(4, 0, Tile::StationWall);
    level.set(4, 1, Tile::StationWall);
    level.set(4, 3, Tile::StationWall);
    level.set(4, 4, Tile::StationWall);
    level
}

#[test]
fn bedroom_door_open_sees_interior() {
    let level = bedroom();
    // door at (4,2) is floor (open)
    let (px, py) = (6, 2);
    let mut fov = FovGrid::new();
    compute_fov(&mut fov, &level, px, py, 20, |_, _| false);

    let map = render_fov(&fov, &level, px, py);
    println!("door open:\n{map}");
    for y in 1..=3 {
        for x in 1..=3 {
            assert!(fov.is_visible(x, y), "({x},{y}) should be visible with door open\n{map}");
        }
    }
}

#[test]
fn door_closed_hides_at_each_distance() {
    // Big enclosed room on the left (x=1..=8, y=1..=8), wall at x=9 with a door at
    // (9,5). Player stands in the open corridor to the right and walks away from the door.
    let w = 20;
    let h = 11;
    for px in 10..=18 {
        let mut level = Level::new(w, h, Tile::StationFloor);
        for x in 0..w as i32 {
            level.set(x, 0, Tile::StationWall);
            level.set(x, (h - 1) as i32, Tile::StationWall);
        }
        for y in 0..h as i32 {
            level.set(0, y, Tile::StationWall);
            level.set(9, y, Tile::StationWall); // dividing wall
            level.set((w - 1) as i32, y, Tile::StationWall);
        }
        level.set(9, 5, Tile::StationFloor); // doorway gap

        let (py, door) = (5, (9i32, 5i32));
        let mut fov = FovGrid::new();
        compute_fov(&mut fov, &level, px as i32, py, 18, |x, y| (x, y) == door);

        let leaked: Vec<(usize, usize)> = (1..=8)
            .flat_map(|y| (1..=8).map(move |x| (x, y)))
            .filter(|&(x, y)| fov.is_visible(x, y))
            .collect();
        let map = render_fov(&fov, &level, px as i32, py);
        assert!(
            leaked.is_empty(),
            "player at dist {} from door: interior tiles {:?} leak through closed door\n{}",
            px - 9,
            leaked,
            map
        );
    }
}

#[test]
fn bedroom_door_closed_hides_interior() {
    let level = bedroom();
    let (px, py) = (6, 2);
    let mut fov = FovGrid::new();
    // door at (4,2) blocks sight when closed
    compute_fov(&mut fov, &level, px, py, 20, |x, y| x == 4 && y == 2);

    let map = render_fov(&fov, &level, px, py);
    println!("door closed:\n{map}");
    // door itself is visible (wall face)
    assert!(fov.is_visible(4, 2), "door should be visible\n{map}");
    // interior should NOT be visible
    for y in 1..=3 {
        for x in 1..=3 {
            assert!(!fov.is_visible(x, y), "({x},{y}) should be hidden with door closed\n{map}");
        }
    }
}

#[test]
fn recompute_in_place_clears_stale_visibility() {
    // A wide-open room wider than the FOV window: moving the eye and recomputing on the
    // same grid must agree with a fresh grid everywhere.
    let mut level = Level::new(40, 9, Tile::StationFloor);
    for x in 0..40 {
        level.set(x, 0, Tile::StationWall);
        level.set(x, 8, Tile::StationWall);
    }
    for y in 0..9 {
        level.set(0, y, Tile::StationWall);
        level.set(39, y, Tile::StationWall);
    }

    let mut reused = FovGrid::new();
    for &(px, py) in &[(5, 4), (34, 4), (20, 4)] {
        compute_fov(&mut reused, &level, px, py, 18, |_, _| false);
        let mut fresh = FovGrid::new();
        compute_fov(&mut fresh, &level, px, py, 18, |_, _| false);
        for y in 0..9 {
            for x in 0..40 {
                assert_eq!(
                    reused.is_visible(x, y),
                    fresh.is_visible(x, y),
                    "({x},{y}) at eye ({px},{py}): reused grid disagrees with fresh grid\nreused:\n{}\nfresh:\n{}",
                    render_fov(&reused, &level, px as i32, py as i32),
                    render_fov(&fresh, &level, px as i32, py as i32)
                );
            }
        }
    }
}

#[test]
fn eye_is_always_visible_and_far_tiles_never() {
    let level = Level::new(60, 60, Tile::StationFloor);
    let mut fov = FovGrid::new();
    compute_fov(&mut fov, &level, 30, 30, 50, |_, _| false);
    assert!(fov.is_visible(30, 30));
    assert!(fov.is_visible(50, 30));
    assert!(!fov.is_visible(51, 30));
    assert!(!fov.is_visible(30, 9));
    let mut small = FovGrid::new();
    compute_fov(&mut small, &level, 30, 30, 0, |_, _| false);
    assert!(small.is_visible(30, 30));
    assert!(!small.is_visible(31, 30));
    let mut none = FovGrid::new();
    compute_fov(&mut none, &level, 30, 30, -3, |_, _| false);
    assert!(!none.is_visible(30, 30));
    let fresh = FovGrid::new();
    assert!(!fresh.is_visible(0, 0));
}
