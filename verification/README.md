# tilt_maze

The rules of a tilting ball maze, verified with Verus, and the game around
them.

- `src/text.rs`: the rows of a maze text (lines without trailing whitespace,
  blank ones dropped).
- `src/level.rs`: `Level`, parsed from text; walls, start, goal, traps.
- `src/autopilot.rs`: `bot_target`, a breadth-first search that gives the
  first step of a shortest route to the goal avoiding walls and traps.
- `src/mesh.rs`: the wall blocks of the board mesh and their visible faces,
  face triangle indices, and the cells the ball is pushed out of, in order.
- `src/game.rs`: the level-to-level state machine, input tilt signs and the
  recording schedules.
- `src/downscale.rs`: halving a screen capture for the recorded animation.
- `app/main.rs`: the macroquad window, physics, drawing and GIF recording.
