# joc

A bot for a two-team arena game, and the verified library it rests on.

`src/` is the library, proved with Verus:

- `utils` — grid geometry: the integer line-drawing walk (`get_bresenham_line`),
  line of sight, standing room for a 3x3 hero, the three-cell moves, a random
  move among them, and the collision grid built from the walls.
- `simulator` — the simulated arena (`SimState`): building it from the
  server's report, the actions open to a hero, and one turn of the game
  (`apply_turn`) stated exactly over spec functions, with laws about what a
  turn may change.
- `mcts` — the joint moves of a team that the tree search explores.
- `bot` — what the client answers to each server message, and the commands
  sent for the chosen moves.
- `labyrinth` — a breadth-first labyrinth solver, proved to return a
  shortest route exactly when one exists (the first of them when moves are
  tried up, down, left, right), and the picture of a route.
- `archive` — the file name of an archive entry.
- `protocol` — the plain types of the server's report.

`app/` is the executable around it: the websocket client, the Monte Carlo
tree search (which works with floating-point scores), the labyrinth program
reading `labyrinth.json`, and the archive lister reading `test.zip`.
`app/main.rs` runs the bot by default, `lab` the labyrinth program and `zip`
the lister.

`tests/` runs the library on concrete cases.
