# hearthwork

The game logic of a small factory game in which porters carry items between
structures, written in Verus with its behaviour stated in contracts and proved.

- `src/` — the verified library. Each module holds plain data (entities are
  integers, items are integer ids) and the rules that act on it:
  `pathfinding` (breadth-first search for porter routes, proved sound,
  complete and shortest), `inventory` (slot transfers, costs),
  `porting` and `logistics` (porters' errands and spawning), `path_sprite`,
  `slots`, `hotbar`, `menus`, `selection`, `naming`, `foraging`,
  `profession`, `manifest`, `items`, `player`, `compendium`. `random` holds
  the trusted wrappers around `rand`.
- `tests/` — tests of the library on concrete values.
- `app/` — a command-line shell: reads the item manifests and the name list
  (TOML, through serde), and prints the compendium and newly housed people.
