# boggle

A verified Boggle solver for a 4x4 board.

- `src/board.rs`: tiles, the board, tile locations, paths packed into one
  word (`BoardPath`) and the iterators over a path and over the tiles a path
  may continue to.
- `src/bits.rs`: the bit-level facts the packed representations rest on.
- `src/dictionary.rs`: the dictionary, a `trie_rs` trie always built by its
  `TrieBuilder` from the entries of a word list (capital letters, at least
  three); the word list's `postcard` form; and the two lookups the search
  makes.
- `src/solver.rs`: the depth-first search from one tile; its result is the
  multiset of dictionary words spelled by the paths from that tile.
- `src/ranking.rs`: scores and the longest-first listing of found words.
- `app/main.rs`: encodes a word list, or reads an encoded one, solves every
  tile in parallel with `rayon`, and prints the board and the scored words.
