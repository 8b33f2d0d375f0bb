# BioGrid

A grid-based ecosystem simulation: friends wander, seek food, follow the
player and reproduce on an infinite tile world that is generated chunk by
chunk around the player.

- `src/` is the verified library (Verus): grid and chunk arithmetic, the set
  of occupied tiles, the behaviour state machine, movement, eating and
  reproduction decisions, chunk loading, terrain seeds and plant spawning.
  Energy, timers and speeds are floating-point in the game; the library
  receives energy as the pair of whole numbers around it, which decides every
  energy rule exactly, and timer ranges as tenths of a second.
- `app/` is the Bevy game around it: components, resources and systems that
  gather values from the ECS world, call the library and apply the outcome.
  It runs headless (no renderer); terrain noise comes from the `noise` crate.
- `tests/` exercises the library.
