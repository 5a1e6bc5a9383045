# kasy

Game logic of *Kasy – Floating Islands*, a small isometric game in which a
bee explores floating islands, avoids flowers, lava and enemies, and looks for
the red flower.  The logic is written in Verus and proved against its
contracts; the rendering, input and timing shell is an ordinary Bevy program.

Layout:

- `src/world.rs` – tiles, placement (a tile goes only where none stands),
  round islands, bridges, the generated archipelago and its laws, the
  per-tile hash and decorations, the land lookup used by enemies.
- `src/lava.rs` – the set of lava positions and the "over lava" query.
- `src/iso.rs` – the exact isometric grid-to-world mapping.
- `src/enemy.rs` – the enemy generator, spawn points and wandering decisions.
- `src/flower.rs` – flower positions, colours and offsets.
- `src/player.rs` – the respawn / win state machine and the score.
- `src/projectile.rs` – hit selection.
- `app/` – the Bevy program: plugins, meshes, lights, UI, floating-point
  movement and collision distances.
- `tests/` – tests of the library.

Sets of grid cells (`LavaTiles`, `WorldTiles`) are vectors with a
no-duplicates invariant and a linear scan: vstd specifies hashed
collections for keys such as integers, not for the `(i32, i32)` pairs that
name cells, so a vector keeps every lookup provable.
