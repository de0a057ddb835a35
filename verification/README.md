# Everly

The verified core of a chunked tile-world sandbox, with the application around it.

- `src/` is the library. Everything in it is verified: the tile store and its double buffer,
  path search and line of sight, the procedural map generator, the level text format, the
  stations and the queues in front of them, dirt and occupancy, chunk streaming and the meshes
  of a chunk, and the decisions behind the heads-up display.
- `tests/` exercises the library from outside.
- `app/` draws the world with Bevy, reads and writes levels, and shares tiles between threads.

Numbers that a renderer would hold as fractions are integers here: positions and energy in
thousandths, dirt and charge in millionths, ages in milliseconds or microseconds.

Random rolls go through `src/rng.rs`. A roll promises its range and no more, so what is proved of
the generator holds for every outcome.
