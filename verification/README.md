# carcossonne_uct

A Carcassonne rules engine and game-playing bots, verified with Verus.

The library (`src/`) holds the rules and is proved against its contracts:

- `tile_pixel`, `tile`, `direction`, `rel_direction`, `index`: the 5×5 pixel
  pictures tiles are drawn as, their rotations and the compass directions.
- `map`: the board, a square pixel grid that grows around its centre as tiles
  are placed, and its text drawing.
- `flood_fill`: the region of pixels connected to a starting pixel.
- `structures`: roads, cities, fields and cloisters on the board, their
  points, and how scoring hands followers back to their owners.
- `game`: the game itself: placing tiles, followers, scoring completed
  structures, ending the game, and listing the legal moves.
- `tileset`: reading tile pictures from text.
- `tile_features`, `structure_links`, `fixed_tile`, `linked_tileset`,
  `small_tables`: a tile described by its edges, the structures it holds with
  the directions they reach, the tile turned into place, and a set of such
  tiles, kept in `heapless` tables.
- `multi_hashset`, `random`: the bag of tiles left (an `indexmap` map) and
  the random draws made from it.
- `engines`: the bots (greedy, heuristic, random and minimax).
- `playout`: a whole game played between two bots, or at random.
- `session`: the decisions behind the web page: matching a person's move,
  follower options, the winner.

`app/` is the program around it: loading tile sets from disk, a tournament
between bots on the console, the Monte-Carlo tree search bot (which works in
floating point) and the game as a web page drives it.

`tests/` holds the tests of the library.
