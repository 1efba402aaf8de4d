use space_qud::locations::planet_gen::{is_solid_ground, EditorPlanetGrid, PlanetBiome};
use space_qud::level::Tile;
use space_qud::planet_grass::{editor_patterns, encode_editor_cell, fits, generate_planet, oriented_index, palette_encode};

#[test]
fn editor_cells_pack_tile_and_object() {
    assert_eq!(encode_editor_cell(22, -1), 22);
    assert_eq!(encode_editor_cell(22, 0), 22 + 256);
    assert_eq!(encode_editor_cell(5, 2), 5 + 3 * 256);
}

#[test]
fn orientations_cover_the_square() {
    assert_eq!(oriented_index(0, 0, 0), 0);
    assert_eq!(oriented_index(1, 0, 1), 3 * 5);
    assert_eq!(oriented_index(0, 0, 2), 24);
    assert_eq!(oriented_index(4, 0, 4), 0);
    assert_eq!(oriented_index(2, 3, 5), 2 * 5 + 3);
    for o in 0..8 {
        let mut seen = [false; 25];
        for i in 0..25 {
            seen[oriented_index(i % 5, i / 5, o)] = true;
        }
        assert!(seen.iter().all(|&s| s));
    }
}

#[test]
fn patterns_from_a_six_by_five_grid() {
    let cells: Vec<u16> = (0..30).collect();
    let pats = editor_patterns(6, 5, &cells);
    assert_eq!(pats.len(), 2 * 8);
    assert_eq!(pats[0], (0..5).flat_map(|y| (0..5).map(move |x| (y * 6 + x) as u16)).collect::<Vec<_>>());
    assert_eq!(pats[8][0], 1);
    // Orientation 2 is the half turn.
    assert_eq!(pats[2][0], cells[4 * 6 + 4]);
}

#[test]
fn fitting_checks_the_seams() {
    let mut output = vec![0u16; 300 * 300];
    let pattern: Vec<u16> = (0..25).collect();
    assert!(fits(&output, 0, 0, &pattern));
    // Above block (1, 1) the row must read 0..5 and to its left the column 0, 5, .., 20.
    for dx in 0..5 {
        output[4 * 300 + 5 + dx] = dx as u16;
    }
    for dy in 0..5 {
        output[(5 + dy) * 300 + 4] = (dy * 5) as u16;
    }
    assert!(fits(&output, 1, 1, &pattern));
    output[4 * 300 + 7] = 99;
    assert!(!fits(&output, 1, 1, &pattern));
}

#[test]
fn generated_planet_is_tiled_with_patterns() {
    let cells: Vec<u16> = vec![22; 36];
    let pats = editor_patterns(6, 6, &cells);
    let planet = generate_planet(&pats);
    assert_eq!(planet.len(), 90000);
    assert!(planet.iter().all(|&c| c == 22));
}

#[test]
fn palette_encoding_round_trips() {
    let cells: Vec<u16> = vec![22, 22, 300, 5, 22, 300];
    let bytes = palette_encode(&cells);
    assert_eq!(&bytes[..4], b"PGR1");
    assert_eq!(&bytes[4..6], &[3, 0]);
    assert_eq!(&bytes[6..12], &[22, 0, 44, 1, 5, 0]);
    assert_eq!(&bytes[12..], &[0, 0, 1, 2, 0, 1]);
    let grid = EditorPlanetGrid::new(&bytes);
    for (i, &c) in cells.iter().enumerate() {
        assert_eq!(grid.cell(i), c);
    }
}

#[test]
fn raw_grids_read_two_bytes_per_cell() {
    let grid = EditorPlanetGrid::new(&[22, 0, 5, 1]);
    assert_eq!(grid.cell(0), 22);
    assert_eq!(grid.cell(1), 5 + 256);
}

#[test]
fn solid_ground_is_walkable() {
    assert!(is_solid_ground(Tile::Grass));
    assert!(!is_solid_ground(Tile::CaveWall));
    assert_ne!(PlanetBiome::Lava, PlanetBiome::Arctic);
}

#[test]
fn blocks_continue_their_neighbours_when_a_pattern_fits() {
    let ones: Vec<u16> = vec![1; 25];
    let twos: Vec<u16> = vec![2; 25];
    let planet = generate_planet(&vec![ones, twos]);
    let first = planet[0];
    assert!(first == 1 || first == 2);
    assert!(planet.iter().all(|&c| c == first));
}

#[test]
fn any_pattern_is_used_when_none_fits() {
    let mut stripe: Vec<u16> = vec![3; 25];
    for k in 0..5 {
        stripe[k] = 4;
    }
    let planet = generate_planet(&vec![stripe]);
    assert_eq!(planet[0], 4);
    assert_eq!(planet[300 * 5], 4);
    assert_eq!(planet[300 * 4], 3);
}
