use boggle::board::{BoardPath, TileLocation};

fn tile(x: usize, y: usize) -> TileLocation {
    TileLocation::try_from((x, y)).unwrap()
}

#[test]
fn test_tilelocation_try_from_accepts_valid() {
    for x in 0..=3 {
        for y in 0..=3 {
            tile(x, y);
        }
    }
}

#[test]
#[should_panic]
fn test_tilelocation_try_rejects_invalid_x() {
    tile(4, 3);
}

#[test]
#[should_panic]
fn test_tilelocation_try_rejects_invalid_y() {
    tile(3, 4);
}

#[test]
fn test_next_tile_iterator_top_left() {
    let path = BoardPath::starting_at(tile(0, 0));
    let mut tiles: Vec<_> = path.valid_next_tiles().collect();
    tiles.sort();
    assert_eq!(tiles, vec![tile(0, 1), tile(1, 0), tile(1, 1)]);
}

#[test]
fn test_next_tile_iterator_middle() {
    let path = BoardPath::starting_at(tile(1, 1));
    let mut tiles: Vec<_> = path.valid_next_tiles().collect();
    tiles.sort();
    assert_eq!(tiles, vec![
        tile(0, 0), tile(0, 1), tile(0, 2),
        tile(1, 0),             tile(1, 2),
        tile(2, 0), tile(2, 1), tile(2, 2),
    ]);
}

#[test]
fn test_next_tile_iterator_middle_obscured() {
    let mut path = BoardPath::starting_at(tile(1, 1));
    path.push(tile(0, 1));

    let mut tiles: Vec<_> = path.valid_next_tiles().collect();
    tiles.sort();
    assert_eq!(tiles, vec![
        tile(0, 0),             tile(0, 2),
        tile(1, 0),             tile(1, 2),
    ]);

    path.push(tile(0, 0));

    tiles = path.valid_next_tiles().collect();
    tiles.sort();
    assert_eq!(tiles, vec![tile(1, 0)]);

    path.push(tile(1, 0));
    tiles = path.valid_next_tiles().collect();
    tiles.sort();
    assert_eq!(tiles, vec![tile(2, 0), tile(2, 1)]);
}
