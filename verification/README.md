# battlesnake

A Battlesnake bot whose move logic is a Verus-verified library.

- `src/` — the library: board model (`datatypes`), grids (`grid`), distances
  and mode names (`tools`), the threat maps and move evaluators (`algorithms`,
  and the turn-aware `algorythms`), the scoring inputs and flood fill
  (`move_algos`), and the server's answers (`game`).
- `app/` — the HTTP server (actix-web): JSON shapes, logging, reading
  `APP_ENV`, and the floating-point scores built from the library's integer
  measures.
- `tests/` — tests of the library on concrete boards.
