# go_patterns

A pattern search for the game of Go, verified with Verus.

- `src/` is the verified library.
  - `sgf`, `players`, `names` and `packing` read game records, tell players apart by their names
    and gather the games into one collection.
  - `matching`, `next_moves`, `answers` and `wasm_search` look for a pattern of stones in a
    collection and answer with a page of results.
  - `record_laws` and `search_laws` state what holds of the two halves as a whole, and
    `symmetry_laws` what holds of a board that can be turned and mirrored.
  - `games`, `cache`, `stones`, `sorting`, `sums` and `text` hold what the others share.
- `tests/` runs the library on concrete games.
- `app/` is the program around it: files and directories, and the calls from a web page.

A search gets the geometry of the board as a `Board`, which is a value with eight operations on
positions. Contracts speak of what those operations compute, whatever it is.
