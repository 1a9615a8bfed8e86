# space_explorer

A 2D space exploration game whose world is generated on the fly from a
single seed. The library in `src/` holds the game's rules, each function
with a contract proved by Verus:

- `seed`: the splitmix64 finalizer and generator, FNV-1a hashing of the seed
  string, the per-chunk seed.
- `chunk`: objects of a chunk drawn from its seed; the set of loaded and
  pending chunks streamed around the player, and the bounds it keeps.
- `combat`: how a dungeon encounter ends.
- `player`: the ship's drive, the player's credits and cleared dungeons.
- `game`: moving between exploring and fighting.

`app/` is the game itself on macroquad: the window, input, drawing, the
generator thread, saving, and everything computed in floating point (the
nebula noise and world positions).
