# topsnek

A Battlesnake engine whose game rules, board scoring and search strategies are written
in Verus and proved against their contracts.

- `src/` is the verified library:
  - `protocol`, `gamedata`: the data of the Battlesnake API.
  - `logic`: points and boards (a packed board of 4-bit cells, with a model of its tiles),
    snakes, the rules of a turn (`Game::execute_moves`) and the laws they keep, the
    Voronoi partitions, the cheapest-path search over a priority queue and the walk back
    along its distances, and the scores (`scoring`, among them the flood fill of
    `scoring::winter`, and `scoring::encoding`, which writes a scorer's settings as text).
  - `snakes`: the strategies, from the greedy `simple` snake to the minimax searches of
    `spaceheater`, `spaceheater2` and `spaceheater3` (alpha-beta with iterative
    deepening), and the clock they search against.
  - `gamelogger`: the record of the games being played, handed back as it was written.
- `tests/` exercises the library on concrete games.
- `app/` is the server: HTTP routing, JSON, saving replays, the scorer whose weights
  include a float, and the Monte Carlo search of the salami snake, which works in floats.
