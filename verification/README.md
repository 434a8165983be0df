# signal_game

The game logic of a small maze-and-lidar exploration game, written in Verus.

`src/` is the verified library:

- `maze`, `generator`, `steps`, `rng`: the maze grid and its randomized
  depth-first generator. The generator is proved to open every room, to open
  nothing but rooms and the passages between them, to join every room to the
  start, and to open exactly one passage fewer than there are rooms.
- `spawn`, `text`: placing the player and target on open cells, and the maze as
  text.
- `level`, `layout`: the current level, what a level change calls for, and the
  exact list of colliders a level is built from.
- `story`, `player`, `target`, `control`: story boards and panels, steering,
  the target's unlock-once rule, and input gating and the debug toggle.

`app/` is the game around it (Bevy plugins, rendering, physics, audio, and the
floating-point work), which calls into the library for these decisions.
