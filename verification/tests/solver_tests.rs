use boggle::board::Tile::{A, B, C, D, E, F, G, H, I, J, K, L, M, N, O, P, QU, R, S, T, U, V, W, X, Y, Z};
use boggle::board::{BoardPath, Boggle, Tile, TileLocation};
use boggle::dictionary::{normalize_word, DecodeError, Dictionary};
use boggle::solver::solve_from_tile;

fn tile(x: usize, y: usize) -> TileLocation {
    TileLocation::try_from((x, y)).unwrap()
}

fn dictionary(words: &[&str]) -> Dictionary {
    let words: Vec<String> = words.iter().map(|w| w.to_string()).collect();
    Dictionary::from_words(&words)
}

fn sample_board() -> Boggle {
    Boggle {
        tiles: [
            [D, W, G, H],
            [R, L, N, E],
            [U, O, T, A],
            [S, I, C, M],
        ],
    }
}

/// Every simple walk from `path`, by plain recursion: the words it spells
/// that `words` holds.
fn brute_force(board: &Boggle, words: &[&str], path: &mut Vec<(usize, usize)>, out: &mut Vec<String>) {
    let text: String = path.iter().map(|&(x, y)| board.tiles[y][x].as_str()).collect();
    if words.contains(&text.as_str()) {
        out.push(text);
    }
    let (lx, ly) = *path.last().unwrap();
    for y in 0..4usize {
        for x in 0..4usize {
            let near = (x as i32 - lx as i32).abs() <= 1 && (y as i32 - ly as i32).abs() <= 1;
            if near && !path.contains(&(x, y)) {
                path.push((x, y));
                brute_force(board, words, path, out);
                path.pop();
            }
        }
    }
}

fn sorted(mut v: Vec<String>) -> Vec<String> {
    v.sort();
    v
}

#[test]
fn solve_finds_words_from_the_tile() {
    let board = sample_board();
    let trie = dictionary(&["TOUR", "TEN", "TOE", "TOT", "LOT", "NOT", "TACO"]);
    let found = solve_from_tile(&board, &trie, tile(2, 2));
    assert_eq!(found, vec!["TEN".to_string(), "TOUR".to_string(), "TACO".to_string()]);
}

#[test]
fn solve_finds_nothing_without_a_matching_start() {
    let board = sample_board();
    let trie = dictionary(&["TOUR", "TEN"]);
    let found = solve_from_tile(&board, &trie, tile(0, 0));
    assert!(found.is_empty());
}

#[test]
fn solve_counts_each_path() {
    let board = Boggle {
        tiles: [
            [A, T, A, B],
            [B, B, B, B],
            [B, B, B, B],
            [B, B, B, B],
        ],
    };
    let trie = dictionary(&["TA", "TAB"]);
    let found = solve_from_tile(&board, &trie, tile(1, 0));
    let tas = found.iter().filter(|w| w.as_str() == "TA").count();
    let tabs = found.iter().filter(|w| w.as_str() == "TAB").count();
    // Entries need three letters, so TA is not a word of the dictionary.
    assert_eq!(tas, 0);
    // A at (0,0) touches B at (0,1) and (1,1); A at (2,0) touches B at (3,0), (1,1), (2,1), (3,1)
    assert_eq!(tabs, 6);
}

#[test]
fn solve_reads_qu_as_two_letters() {
    let board = Boggle {
        tiles: [
            [QU, I, T, E],
            [B, B, B, B],
            [B, B, B, B],
            [B, B, B, B],
        ],
    };
    let trie = dictionary(&["QUIT", "QUITE", "QIT", "QUI"]);
    let found = solve_from_tile(&board, &trie, tile(0, 0));
    assert_eq!(sorted(found), vec!["QUI".to_string(), "QUIT".to_string(), "QUITE".to_string()]);
}

#[test]
fn solve_matches_a_plain_walk_over_all_paths() {
    let board = sample_board();
    let words = ["TOUR", "TEN", "LOT", "NOT", "TACO", "SOUL", "LOTS", "UNTO", "GNAT", "WORLD", "TOIL", "COIL", "MAT", "MATE"];
    let trie = dictionary(&words);
    for start in TileLocation::all() {
        let found = solve_from_tile(&board, &trie, start);
        let idx = u8::from(start) as usize;
        let mut expected = vec![];
        brute_force(&board, &words, &mut vec![(idx % 4, idx / 4)], &mut expected);
        assert_eq!(found, expected);
    }
}

#[test]
fn solve_reaches_full_length_paths() {
    // A snake through every tile spells the whole board.
    let board = Boggle {
        tiles: [
            [A, B, C, D],
            [H, G, F, E],
            [I, J, K, L],
            [P, O, N, M],
        ],
    };
    let trie = dictionary(&["ABCDEFGHIJKLMNOP", "ABCDEFGHIJKLMNO"]);
    let found = solve_from_tile(&board, &trie, tile(0, 0));
    assert_eq!(sorted(found), vec!["ABCDEFGHIJKLMNO".to_string(), "ABCDEFGHIJKLMNOP".to_string()]);
}

#[test]
fn dictionary_decodes_postcard_word_lists() {
    let words = vec!["tour".to_string(), "Ten".to_string(), "ox".to_string()];
    let bytes = Dictionary::encode(&words);
    assert_eq!(bytes, postcard::to_allocvec(&words).unwrap());
    let decoded = Dictionary::decode(&bytes).unwrap();
    let found = solve_from_tile(&sample_board(), &decoded, tile(2, 2));
    assert_eq!(sorted(found), vec!["TEN".to_string(), "TOUR".to_string()]);
}

#[test]
fn dictionary_decode_refuses_garbage() {
    assert_eq!(Dictionary::decode(&[]).err(), Some(DecodeError));
    assert_eq!(Dictionary::decode(&[5, 1]).err(), Some(DecodeError));
}

#[test]
fn empty_dictionary_finds_nothing() {
    let empty = Dictionary::from_words(&vec![]);
    assert!(solve_from_tile(&sample_board(), &empty, tile(2, 2)).is_empty());
    let short = dictionary(&["to", "a", "x-y"]);
    assert!(solve_from_tile(&sample_board(), &short, tile(2, 2)).is_empty());
}

#[test]
fn dictionary_words_are_normalized() {
    let trie = dictionary(&["tour", "T-e-n!", "Ta", "cAtS"]);
    let found = solve_from_tile(&sample_board(), &trie, tile(2, 2));
    assert_eq!(found, vec!["TEN".to_string(), "TOUR".to_string()]);
}

#[test]
fn normalize_word_keeps_capitals() {
    assert_eq!(normalize_word("can't"), Some(b"CANT".to_vec()));
    assert_eq!(normalize_word("Zoë's"), Some(b"ZOS".to_vec()));
    assert_eq!(normalize_word("hello-world"), Some(b"HELLOWORLD".to_vec()));
    assert_eq!(normalize_word("ab"), None);
    assert_eq!(normalize_word("a-b"), None);
    assert_eq!(normalize_word(""), None);
}

#[test]
fn path_from_locations_round_trips() {
    let locs = vec![tile(0, 0), tile(1, 1), tile(1, 1), tile(3, 2)];
    let path = BoardPath::from_locations(&locs);
    assert_eq!(path.len(), 4);
    assert_eq!(path.into_iter().collect(), locs);
    assert_eq!(path.into_iter().size_hint(), (4, Some(4)));
}

#[test]
fn board_path_iterates_in_order() {
    let mut path = BoardPath::starting_at(tile(1, 1));
    path.push(tile(2, 2));
    path.push(tile(3, 3));
    let mut it = path.into_iter();
    assert_eq!(it.size_hint(), (3, Some(3)));
    assert_eq!(it.next(), Some(tile(1, 1)));
    assert_eq!(it.next(), Some(tile(2, 2)));
    assert_eq!(it.size_hint(), (1, Some(1)));
    assert_eq!(it.next(), Some(tile(3, 3)));
    assert_eq!(it.next(), None);
    assert_eq!(it.size_hint(), (0, Some(0)));
}

#[test]
fn next_tiles_come_highest_first() {
    let path = BoardPath::starting_at(tile(0, 0));
    let mut it = path.valid_next_tiles();
    assert_eq!(it.size_hint(), (3, Some(3)));
    assert_eq!(it.next(), Some(tile(1, 1)));
    assert_eq!(it.next(), Some(tile(0, 1)));
    assert_eq!(it.next(), Some(tile(1, 0)));
    assert_eq!(it.next(), None);
    assert_eq!(it.size_hint(), (0, Some(0)));
}

#[test]
fn full_path_has_fifteen_locations() {
    let mut path = BoardPath::starting_at(tile(0, 0));
    let order = [(1, 0), (2, 0), (3, 0), (3, 1), (2, 1), (1, 1), (0, 1), (0, 2), (1, 2), (2, 2), (3, 2), (3, 3), (2, 3), (1, 3)];
    for (x, y) in order {
        path.push(tile(x, y));
    }
    assert_eq!(path.len(), 15);
    let tiles = path.valid_next_tiles().collect();
    assert_eq!(tiles, vec![tile(0, 3)]);
    let visited: Vec<TileLocation> = {
        let mut it = path.into_iter();
        let mut v = vec![];
        while let Some(t) = it.next() {
            v.push(t);
        }
        v
    };
    assert_eq!(visited.len(), 15);
    assert_eq!(visited[14], tile(1, 3));
}

#[test]
fn neighbour_mask_of_inner_tile() {
    assert_eq!(BoardPath::tile_position_to_neighbour_bitmask(5), 0b0000_0111_0101_0111);
    assert_eq!(BoardPath::tile_position_to_neighbour_bitmask(0), 0b0000_0000_0011_0010);
    assert_eq!(BoardPath::tile_position_to_neighbour_bitmask(15), 0b0100_1100_0000_0000);
}

#[test]
fn tile_location_packs_column_and_row() {
    assert_eq!(u8::from(tile(0, 0)), 0);
    assert_eq!(u8::from(tile(1, 2)), 9);
    assert_eq!(u8::from(tile(3, 3)), 15);
    let all = TileLocation::all();
    assert_eq!(all.len(), 16);
    for (i, l) in all.into_iter().enumerate() {
        assert_eq!(u8::from(l) as usize, i);
    }
    assert_eq!(TileLocation::try_from((4, 0)), Err("Number too big, smaller number please :)"));
}
