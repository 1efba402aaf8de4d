use space_qud::galaxy::{known_locations, Galaxy, Location};
use space_qud::level::{LocationType, Tile};

fn loc(name: &'static str) -> Location {
    Location::new(name, 4, 3, 1, LocationType::DeepSpace, Tile::Vacuum)
}

#[test]
fn galaxy_insert_get_and_replace() {
    let mut g = Galaxy::new();
    assert!(g.get((0, 0, 0)).is_none());
    g.insert((0, 0, 0), loc("Home"));
    g.insert((1, 2, 3), loc("Far"));
    assert_eq!(g.get((1, 2, 3)).unwrap().name, "Far");
    g.insert((0, 0, 0), loc("Rebuilt"));
    assert_eq!(g.get((0, 0, 0)).unwrap().name, "Rebuilt");
    assert_eq!(g.locations.len(), 2);
    g.get_mut((1, 2, 3)).unwrap().width = 9;
    assert_eq!(g.get((1, 2, 3)).unwrap().width, 9);
    assert!(g.get_mut((5, 5, 5)).is_none());
}

#[test]
fn known_locations_leave_out_the_ship() {
    let mut g = Galaxy::new();
    g.insert((-1, -1, -1), loc("Ship"));
    g.insert((2, 0, 0), loc("Station"));
    g.insert((0, 4, 0), loc("Planet"));
    let known = known_locations(&g);
    let names: Vec<&str> = known.iter().map(|(_, l)| l.name).collect();
    assert_eq!(names, vec!["Station", "Planet"]);
    assert_eq!(known[1].0, (0, 4, 0));
}
