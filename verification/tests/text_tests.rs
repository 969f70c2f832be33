use boggle::board::Tile::{A, B, C, D, E, F, G, H, I, J, K, L, M, N, O, P, QU, R, S, T, U, V, W, X, Y, Z};
use boggle::board::{Boggle, Tile};
use boggle::ranking::{order_longest_first, word_score};

#[test]
fn tiles_show_their_letters() {
    assert_eq!(Tile::A.as_str(), "A");
    assert_eq!(Tile::QU.as_str(), "QU");
    assert_eq!(Tile::Z.as_str(), "Z");
    assert_eq!(Tile::A.cell_str(), "A ");
    assert_eq!(Tile::QU.cell_str(), "QU");
    assert_eq!(Tile::QU.number(), 16);
    assert_eq!(Tile::from_number(16), Tile::QU);
    assert_eq!(Tile::from_number(25), Tile::Z);
}

#[test]
fn board_renders_as_a_box() {
    let board = Boggle {
        tiles: [
            [D, W, G, H],
            [R, L, N, E],
            [U, O, T, A],
            [S, I, C, QU],
        ],
    };
    let expected = "┌──┬──┬──┬──┐\n\
                    │D │W │G │H │\n\
                    ├──┼──┼──┼──┤\n\
                    │R │L │N │E │\n\
                    ├──┼──┼──┼──┤\n\
                    │U │O │T │A │\n\
                    ├──┼──┼──┼──┤\n\
                    │S │I │C │QU│\n\
                    └──┴──┴──┴──┘";
    assert_eq!(board.render(), expected);
}

#[test]
fn scores_by_length() {
    assert_eq!(word_score("CAT"), 1);
    assert_eq!(word_score("CATS"), 1);
    assert_eq!(word_score("CARTS"), 2);
    assert_eq!(word_score("CARTON"), 3);
    assert_eq!(word_score("CARTONS"), 5);
    assert_eq!(word_score("CARTOONS"), 11);
    assert_eq!(word_score("QUARTERBACKS"), 11);
}

#[test]
fn orders_longest_first_keeping_ties() {
    let words: Vec<String> = ["TEN", "TOUR", "LOT", "TACOS", "NOT", "SOUL"].iter().map(|s| s.to_string()).collect();
    let ordered = order_longest_first(words);
    assert_eq!(ordered, vec!["TACOS", "TOUR", "SOUL", "TEN", "LOT", "NOT"]);
}

#[test]
fn orders_empty_list() {
    assert_eq!(order_longest_first(vec![]), Vec::<String>::new());
}
