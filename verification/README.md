# space_qud

The game logic of a space roguelike, written in Verus and verified: every public function
states what it does in its contract, and the properties that tie functions together are
proved as laws.

- `src/` — the verified library: tiles, levels and their builders (`level`), field of view
  (`fov`), combat, flow fields and A* path search (`combat`), movement (`movement`), the game
  clock (`timing`), crafting, loadouts and loot (`crafting`, `entities`, `loot`), the classic
  stacked map (`map`, `game`), the galaxy and its locations (`galaxy`, `active_zone`), the
  generators of stations, planets, caves and the icy village (`locations`, `planet_grass`), the
  popup and pause menus (`menu`), dialogue trees (`dialogue`), and the map editor's canvas
  (`editor`). `rng` holds the only calls into `rand`, whose contracts are trusted.
- `tests/` — tests on concrete values.
- `app/` — a small command-line front end: file input and output, a text driver for the menus,
  and the few steps that use floating point.
