use vstd::prelude::*;
use crate::bits::{
    nibble, nibble32, pushed, bit16, lemma_nibble_bound, lemma_push_nibble, lemma_bit16_zero,
    lemma_bit16_set, lemma_bit16_clear, lemma_shift_in, lemma_layout, lemma_inc_low,
};

verus! {

/// A tile of a boggle board. `QU` is the single tile that shows two letters.
#[derive(Clone, Copy, PartialEq, Eq, Structural, Debug, Hash)]
pub enum Tile {
    A, B, C, D, E, F, G, H, I, J, K, L, M,
    N, O, P, QU, R, S, T, U, V, W, X, Y, Z,
}

/// The letters shown on a tile.
pub open spec fn tile_chars(t: Tile) -> Seq<char> {
    match t {
        Tile::A => seq!['A'],
        Tile::B => seq!['B'],
        Tile::C => seq!['C'],
        Tile::D => seq!['D'],
        Tile::E => seq!['E'],
        Tile::F => seq!['F'],
        Tile::G => seq!['G'],
        Tile::H => seq!['H'],
        Tile::I => seq!['I'],
        Tile::J => seq!['J'],
        Tile::K => seq!['K'],
        Tile::L => seq!['L'],
        Tile::M => seq!['M'],
        Tile::N => seq!['N'],
        Tile::O => seq!['O'],
        Tile::P => seq!['P'],
        Tile::QU => seq!['Q', 'U'],
        Tile::R => seq!['R'],
        Tile::S => seq!['S'],
        Tile::T => seq!['T'],
        Tile::U => seq!['U'],
        Tile::V => seq!['V'],
        Tile::W => seq!['W'],
        Tile::X => seq!['X'],
        Tile::Y => seq!['Y'],
        Tile::Z => seq!['Z'],
    }
}

/// The two-character cell text of a tile on a printed board.
pub open spec fn tile_cell(t: Tile) -> Seq<char> {
    match t {
        Tile::A => seq!['A', ' '],
        Tile::B => seq!['B', ' '],
        Tile::C => seq!['C', ' '],
        Tile::D => seq!['D', ' '],
        Tile::E => seq!['E', ' '],
        Tile::F => seq!['F', ' '],
        Tile::G => seq!['G', ' '],
        Tile::H => seq!['H', ' '],
        Tile::I => seq!['I', ' '],
        Tile::J => seq!['J', ' '],
        Tile::K => seq!['K', ' '],
        Tile::L => seq!['L', ' '],
        Tile::M => seq!['M', ' '],
        Tile::N => seq!['N', ' '],
        Tile::O => seq!['O', ' '],
        Tile::P => seq!['P', ' '],
        Tile::QU => seq!['Q', 'U'],
        Tile::R => seq!['R', ' '],
        Tile::S => seq!['S', ' '],
        Tile::T => seq!['T', ' '],
        Tile::U => seq!['U', ' '],
        Tile::V => seq!['V', ' '],
        Tile::W => seq!['W', ' '],
        Tile::X => seq!['X', ' '],
        Tile::Y => seq!['Y', ' '],
        Tile::Z => seq!['Z', ' '],
    }
}

/// The position of a tile in the alphabet, `QU` standing where `Q` does.
pub open spec fn tile_number(t: Tile) -> int {
    match t {
        Tile::A => 0,
        Tile::B => 1,
        Tile::C => 2,
        Tile::D => 3,
        Tile::E => 4,
        Tile::F => 5,
        Tile::G => 6,
        Tile::H => 7,
        Tile::I => 8,
        Tile::J => 9,
        Tile::K => 10,
        Tile::L => 11,
        Tile::M => 12,
        Tile::N => 13,
        Tile::O => 14,
        Tile::P => 15,
        Tile::QU => 16,
        Tile::R => 17,
        Tile::S => 18,
        Tile::T => 19,
        Tile::U => 20,
        Tile::V => 21,
        Tile::W => 22,
        Tile::X => 23,
        Tile::Y => 24,
        Tile::Z => 25,
    }
}

/// The tile at position `n` of the alphabet (`Z` past the end).
pub open spec fn tile_of_number(n: int) -> Tile {
    if n == 0 {
        Tile::A
    } else if n == 1 {
        Tile::B
    } else if n == 2 {
        Tile::C
    } else if n == 3 {
        Tile::D
    } else if n == 4 {
        Tile::E
    } else if n == 5 {
        Tile::F
    } else if n == 6 {
        Tile::G
    } else if n == 7 {
        Tile::H
    } else if n == 8 {
        Tile::I
    } else if n == 9 {
        Tile::J
    } else if n == 10 {
        Tile::K
    } else if n == 11 {
        Tile::L
    } else if n == 12 {
        Tile::M
    } else if n == 13 {
        Tile::N
    } else if n == 14 {
        Tile::O
    } else if n == 15 {
        Tile::P
    } else if n == 16 {
        Tile::QU
    } else if n == 17 {
        Tile::R
    } else if n == 18 {
        Tile::S
    } else if n == 19 {
        Tile::T
    } else if n == 20 {
        Tile::U
    } else if n == 21 {
        Tile::V
    } else if n == 22 {
        Tile::W
    } else if n == 23 {
        Tile::X
    } else if n == 24 {
        Tile::Y
    } else {
        Tile::Z
    }
}

/// Every tile's letters are capitals, the first one at its position in the
/// alphabet; only `QU` has a second letter.
pub proof fn lemma_tile_letters(t: Tile)
    ensures
        tile_of_number(tile_number(t)) == t,
        0 <= tile_number(t) < 26,
        tile_chars(t).len() >= 1,
        tile_chars(t)[0] as int == 65 + tile_number(t),
        t == Tile::QU <==> tile_chars(t).len() == 2,
        t == Tile::QU ==> tile_chars(t)[1] == 'U',
        forall|i: int| 0 <= i < tile_chars(t).len() ==> 'A' <= #[trigger] tile_chars(t)[i] <= 'Z',
{
}

/// Each tile shows the letters it is named after: `QU` shows Q then U, every
/// other tile the one capital letter of its name.
pub proof fn lemma_tile_names()
    ensures
        tile_chars(Tile::A) == seq!['A'],
        tile_chars(Tile::B) == seq!['B'],
        tile_chars(Tile::C) == seq!['C'],
        tile_chars(Tile::D) == seq!['D'],
        tile_chars(Tile::E) == seq!['E'],
        tile_chars(Tile::F) == seq!['F'],
        tile_chars(Tile::G) == seq!['G'],
        tile_chars(Tile::H) == seq!['H'],
        tile_chars(Tile::I) == seq!['I'],
        tile_chars(Tile::J) == seq!['J'],
        tile_chars(Tile::K) == seq!['K'],
        tile_chars(Tile::L) == seq!['L'],
        tile_chars(Tile::M) == seq!['M'],
        tile_chars(Tile::N) == seq!['N'],
        tile_chars(Tile::O) == seq!['O'],
        tile_chars(Tile::P) == seq!['P'],
        tile_chars(Tile::QU) == seq!['Q', 'U'],
        tile_chars(Tile::R) == seq!['R'],
        tile_chars(Tile::S) == seq!['S'],
        tile_chars(Tile::T) == seq!['T'],
        tile_chars(Tile::U) == seq!['U'],
        tile_chars(Tile::V) == seq!['V'],
        tile_chars(Tile::W) == seq!['W'],
        tile_chars(Tile::X) == seq!['X'],
        tile_chars(Tile::Y) == seq!['Y'],
        tile_chars(Tile::Z) == seq!['Z'],
{
}

/// Distinct tiles show distinct letters.
pub proof fn lemma_tile_letters_distinct(s: Tile, t: Tile)
    ensures
        tile_chars(s) == tile_chars(t) ==> s == t,
{
    lemma_tile_letters(s);
    lemma_tile_letters(t);
    if tile_chars(s) == tile_chars(t) {
        assert(tile_chars(s)[0] == tile_chars(t)[0]);
    }
}

/// A tile's printed cell is its letters, padded with a space to two
/// characters.
pub proof fn lemma_cell_shows_letters(t: Tile)
    ensures
        tile_cell(t).len() == 2,
        tile_chars(t).len() == 2 ==> tile_cell(t) == tile_chars(t),
        tile_chars(t).len() == 1 ==> tile_cell(t) == tile_chars(t) + seq![' '],
{
    assert(tile_chars(t).len() == 1 ==> tile_cell(t) =~= tile_chars(t) + seq![' ']);
}

impl Tile {
    /// The tile at position `n` of the alphabet (`Z` past the end).
    pub fn from_number(n: usize) -> (t: Tile)
        ensures
            t == tile_of_number(n as int),
    {
        match n {
            0 => Tile::A,
            1 => Tile::B,
            2 => Tile::C,
            3 => Tile::D,
            4 => Tile::E,
            5 => Tile::F,
            6 => Tile::G,
            7 => Tile::H,
            8 => Tile::I,
            9 => Tile::J,
            10 => Tile::K,
            11 => Tile::L,
            12 => Tile::M,
            13 => Tile::N,
            14 => Tile::O,
            15 => Tile::P,
            16 => Tile::QU,
            17 => Tile::R,
            18 => Tile::S,
            19 => Tile::T,
            20 => Tile::U,
            21 => Tile::V,
            22 => Tile::W,
            23 => Tile::X,
            24 => Tile::Y,
            _ => Tile::Z,
        }
    }

    /// The two-character cell text of this tile on a printed board.
    pub fn cell_str(&self) -> (s: &'static str)
        ensures
            s@ == tile_cell(*self),
    {
        match self {
            Tile::A => {
                let s = "A ";
                proof { reveal_strlit("A "); assert(s@ =~= seq!['A', ' ']); }
                s
            },
            Tile::B => {
                let s = "B ";
                proof { reveal_strlit("B "); assert(s@ =~= seq!['B', ' ']); }
                s
            },
            Tile::C => {
                let s = "C ";
                proof { reveal_strlit("C "); assert(s@ =~= seq!['C', ' ']); }
                s
            },
            Tile::D => {
                let s = "D ";
                proof { reveal_strlit("D "); assert(s@ =~= seq!['D', ' ']); }
                s
            },
            Tile::E => {
                let s = "E ";
                proof { reveal_strlit("E "); assert(s@ =~= seq!['E', ' ']); }
                s
            },
            Tile::F => {
                let s = "F ";
                proof { reveal_strlit("F "); assert(s@ =~= seq!['F', ' ']); }
                s
            },
            Tile::G => {
                let s = "G ";
                proof { reveal_strlit("G "); assert(s@ =~= seq!['G', ' ']); }
                s
            },
            Tile::H => {
                let s = "H ";
                proof { reveal_strlit("H "); assert(s@ =~= seq!['H', ' ']); }
                s
            },
            Tile::I => {
                let s = "I ";
                proof { reveal_strlit("I "); assert(s@ =~= seq!['I', ' ']); }
                s
            },
            Tile::J => {
                let s = "J ";
                proof { reveal_strlit("J "); assert(s@ =~= seq!['J', ' ']); }
                s
            },
            Tile::K => {
                let s = "K ";
                proof { reveal_strlit("K "); assert(s@ =~= seq!['K', ' ']); }
                s
            },
            Tile::L => {
                let s = "L ";
                proof { reveal_strlit("L "); assert(s@ =~= seq!['L', ' ']); }
                s
            },
            Tile::M => {
                let s = "M ";
                proof { reveal_strlit("M "); assert(s@ =~= seq!['M', ' ']); }
                s
            },
            Tile::N => {
                let s = "N ";
                proof { reveal_strlit("N "); assert(s@ =~= seq!['N', ' ']); }
                s
            },
            Tile::O => {
                let s = "O ";
                proof { reveal_strlit("O "); assert(s@ =~= seq!['O', ' ']); }
                s
            },
            Tile::P => {
                let s = "P ";
                proof { reveal_strlit("P "); assert(s@ =~= seq!['P', ' ']); }
                s
            },
            Tile::QU => {
                let s = "QU";
                proof { reveal_strlit("QU"); assert(s@ =~= seq!['Q', 'U']); }
                s
            },
            Tile::R => {
                let s = "R ";
                proof { reveal_strlit("R "); assert(s@ =~= seq!['R', ' ']); }
                s
            },
            Tile::S => {
                let s = "S ";
                proof { reveal_strlit("S "); assert(s@ =~= seq!['S', ' ']); }
                s
            },
            Tile::T => {
                let s = "T ";
                proof { reveal_strlit("T "); assert(s@ =~= seq!['T', ' ']); }
                s
            },
            Tile::U => {
                let s = "U ";
                proof { reveal_strlit("U "); assert(s@ =~= seq!['U', ' ']); }
                s
            },
            Tile::V => {
                let s = "V ";
                proof { reveal_strlit("V "); assert(s@ =~= seq!['V', ' ']); }
                s
            },
            Tile::W => {
                let s = "W ";
                proof { reveal_strlit("W "); assert(s@ =~= seq!['W', ' ']); }
                s
            },
            Tile::X => {
                let s = "X ";
                proof { reveal_strlit("X "); assert(s@ =~= seq!['X', ' ']); }
                s
            },
            Tile::Y => {
                let s = "Y ";
                proof { reveal_strlit("Y "); assert(s@ =~= seq!['Y', ' ']); }
                s
            },
            Tile::Z => {
                let s = "Z ";
                proof { reveal_strlit("Z "); assert(s@ =~= seq!['Z', ' ']); }
                s
            },
        }
    }

    /// The position of this tile in the alphabet, `QU` standing where `Q` does.
    pub fn number(&self) -> (n: usize)
        ensures
            n == tile_number(*self),
            n < 26,
    {
        match self {
            Tile::A => 0,
            Tile::B => 1,
            Tile::C => 2,
            Tile::D => 3,
            Tile::E => 4,
            Tile::F => 5,
            Tile::G => 6,
            Tile::H => 7,
            Tile::I => 8,
            Tile::J => 9,
            Tile::K => 10,
            Tile::L => 11,
            Tile::M => 12,
            Tile::N => 13,
            Tile::O => 14,
            Tile::P => 15,
            Tile::QU => 16,
            Tile::R => 17,
            Tile::S => 18,
            Tile::T => 19,
            Tile::U => 20,
            Tile::V => 21,
            Tile::W => 22,
            Tile::X => 23,
            Tile::Y => 24,
            Tile::Z => 25,
        }
    }

    /// The letters shown on this tile.
    pub fn as_str(&self) -> (s: &'static str)
        ensures
            s@ == tile_chars(*self),
    {
        match self {
            Tile::A => {
                let s = "A";
                proof { reveal_strlit("A"); assert(s@ =~= seq!['A']); }
                s
            },
            Tile::B => {
                let s = "B";
                proof { reveal_strlit("B"); assert(s@ =~= seq!['B']); }
                s
            },
            Tile::C => {
                let s = "C";
                proof { reveal_strlit("C"); assert(s@ =~= seq!['C']); }
                s
            },
            Tile::D => {
                let s = "D";
                proof { reveal_strlit("D"); assert(s@ =~= seq!['D']); }
                s
            },
            Tile::E => {
                let s = "E";
                proof { reveal_strlit("E"); assert(s@ =~= seq!['E']); }
                s
            },
            Tile::F => {
                let s = "F";
                proof { reveal_strlit("F"); assert(s@ =~= seq!['F']); }
                s
            },
            Tile::G => {
                let s = "G";
                proof { reveal_strlit("G"); assert(s@ =~= seq!['G']); }
                s
            },
            Tile::H => {
                let s = "H";
                proof { reveal_strlit("H"); assert(s@ =~= seq!['H']); }
                s
            },
            Tile::I => {
                let s = "I";
                proof { reveal_strlit("I"); assert(s@ =~= seq!['I']); }
                s
            },
            Tile::J => {
                let s = "J";
                proof { reveal_strlit("J"); assert(s@ =~= seq!['J']); }
                s
            },
            Tile::K => {
                let s = "K";
                proof { reveal_strlit("K"); assert(s@ =~= seq!['K']); }
                s
            },
            Tile::L => {
                let s = "L";
                proof { reveal_strlit("L"); assert(s@ =~= seq!['L']); }
                s
            },
            Tile::M => {
                let s = "M";
                proof { reveal_strlit("M"); assert(s@ =~= seq!['M']); }
                s
            },
            Tile::N => {
                let s = "N";
                proof { reveal_strlit("N"); assert(s@ =~= seq!['N']); }
                s
            },
            Tile::O => {
                let s = "O";
                proof { reveal_strlit("O"); assert(s@ =~= seq!['O']); }
                s
            },
            Tile::P => {
                let s = "P";
                proof { reveal_strlit("P"); assert(s@ =~= seq!['P']); }
                s
            },
            Tile::QU => {
                let s = "QU";
                proof { reveal_strlit("QU"); assert(s@ =~= seq!['Q', 'U']); }
                s
            },
            Tile::R => {
                let s = "R";
                proof { reveal_strlit("R"); assert(s@ =~= seq!['R']); }
                s
            },
            Tile::S => {
                let s = "S";
                proof { reveal_strlit("S"); assert(s@ =~= seq!['S']); }
                s
            },
            Tile::T => {
                let s = "T";
                proof { reveal_strlit("T"); assert(s@ =~= seq!['T']); }
                s
            },
            Tile::U => {
                let s = "U";
                proof { reveal_strlit("U"); assert(s@ =~= seq!['U']); }
                s
            },
            Tile::V => {
                let s = "V";
                proof { reveal_strlit("V"); assert(s@ =~= seq!['V']); }
                s
            },
            Tile::W => {
                let s = "W";
                proof { reveal_strlit("W"); assert(s@ =~= seq!['W']); }
                s
            },
            Tile::X => {
                let s = "X";
                proof { reveal_strlit("X"); assert(s@ =~= seq!['X']); }
                s
            },
            Tile::Y => {
                let s = "Y";
                proof { reveal_strlit("Y"); assert(s@ =~= seq!['Y']); }
                s
            },
            Tile::Z => {
                let s = "Z";
                proof { reveal_strlit("Z"); assert(s@ =~= seq!['Z']); }
                s
            },
        }
    }
}


/// A 4x4 boggle board, `tiles[y][x]` being the tile in row `y`, column `x`.
pub struct Boggle {
    pub tiles: [[Tile; 4]; 4],
}

/// The tile of `b` at the location numbered `p`.
pub open spec fn tile_at(b: Boggle, p: int) -> Tile {
    b.tiles[loc_y(p)][loc_x(p)]
}

/// The top edge of a printed board.
pub open spec fn top_edge() -> Seq<char> {
    seq!['┌', '─', '─', '┬', '─', '─', '┬', '─', '─', '┬', '─', '─', '┐', '\n']
}

/// The line between two rows of a printed board.
pub open spec fn row_separator() -> Seq<char> {
    seq!['├', '─', '─', '┼', '─', '─', '┼', '─', '─', '┼', '─', '─', '┤', '\n']
}

/// The bottom edge of a printed board, without a line break.
pub open spec fn bottom_edge() -> Seq<char> {
    seq!['└', '─', '─', '┴', '─', '─', '┴', '─', '─', '┴', '─', '─', '┘']
}

/// One row of a printed board.
pub open spec fn row_text(row: [Tile; 4]) -> Seq<char> {
    seq!['│'] + tile_cell(row[0]) + seq!['│'] + tile_cell(row[1]) + seq!['│'] + tile_cell(row[2])
        + seq!['│'] + tile_cell(row[3]) + seq!['│', '\n']
}

/// The printed board: a box drawn around the tiles, one row per line.
pub open spec fn board_text(b: Boggle) -> Seq<char> {
    top_edge() + row_text(b.tiles[0]) + row_separator() + row_text(b.tiles[1]) + row_separator()
        + row_text(b.tiles[2]) + row_separator() + row_text(b.tiles[3]) + bottom_edge()
}

impl Boggle {
    /// The tile at `index`.
    pub fn index(&self, index: TileLocation) -> (r: &Tile)
        ensures
            *r == tile_at(*self, index.index_spec()),
    {
        proof {
            use_type_invariant(&index);
        }
        &self.tiles[index.y][index.x]
    }

    /// The board drawn as text: a box around the tiles, one row per line.
    pub fn render(&self) -> (r: String)
        ensures
            r@ == board_text(*self),
    {
        let top = "┌──┬──┬──┬──┐\n";
        let sep = "├──┼──┼──┼──┤\n";
        let bottom = "└──┴──┴──┴──┘";
        proof {
            reveal_strlit("┌──┬──┬──┬──┐\n");
            reveal_strlit("├──┼──┼──┼──┤\n");
            reveal_strlit("└──┴──┴──┴──┘");
            assert(top@ =~= top_edge());
            assert(sep@ =~= row_separator());
            assert(bottom@ =~= bottom_edge());
        }
        let mut out = String::from_str(top);
        Self::append_row(&mut out, &self.tiles[0]);
        out.append(sep);
        Self::append_row(&mut out, &self.tiles[1]);
        out.append(sep);
        Self::append_row(&mut out, &self.tiles[2]);
        out.append(sep);
        Self::append_row(&mut out, &self.tiles[3]);
        out.append(bottom);
        proof {
            assert(out@ =~= board_text(*self));
        }
        out
    }

    fn append_row(out: &mut String, row: &[Tile; 4])
        ensures
            final(out)@ == old(out)@ + row_text(*row),
    {
        let bar = "│";
        let end = "│\n";
        proof {
            reveal_strlit("│");
            reveal_strlit("│\n");
            assert(bar@ =~= seq!['│']);
            assert(end@ =~= seq!['│', '\n']);
        }
        out.append(bar);
        out.append(row[0].cell_str());
        out.append(bar);
        out.append(row[1].cell_str());
        out.append(bar);
        out.append(row[2].cell_str());
        out.append(bar);
        out.append(row[3].cell_str());
        out.append(end);
        proof {
            assert(final(out)@ =~= old(out)@ + row_text(*row));
        }
    }
}

/// The location of a tile on the board: column `x` and row `y`, both at most 3.
#[derive(Debug, Clone, Copy, PartialEq, Eq, PartialOrd, Ord)]
pub struct TileLocation {
    x: usize,
    y: usize,
}

/// Whether `p` numbers a tile of the board (`x + 4 * y`).
pub open spec fn is_loc(p: int) -> bool {
    0 <= p < 16
}

/// Column of the tile numbered `p`.
pub open spec fn loc_x(p: int) -> int {
    p % 4
}

/// Row of the tile numbered `p`.
pub open spec fn loc_y(p: int) -> int {
    p / 4
}

/// Whether the tiles numbered `p` and `q` are distinct and touch, across a
/// side or a corner.
pub open spec fn adjacent(p: int, q: int) -> bool {
    &&& is_loc(p)
    &&& is_loc(q)
    &&& p != q
    &&& -1 <= loc_x(p) - loc_x(q) <= 1
    &&& -1 <= loc_y(p) - loc_y(q) <= 1
}

/// Adjacency goes both ways, and no location is its own neighbour.
pub proof fn lemma_adjacent_symmetric(p: int, q: int)
    ensures
        adjacent(p, q) == adjacent(q, p),
        !adjacent(p, p),
{
}

/// Mirroring the board left to right (column `x` to `3 - x`) or top to
/// bottom (row `y` to `3 - y`) keeps which locations are neighbours.
pub proof fn lemma_adjacent_mirrors(p: int, q: int)
    requires
        is_loc(p),
        is_loc(q),
    ensures
        adjacent(p, q) == adjacent(4 * loc_y(p) + 3 - loc_x(p), 4 * loc_y(q) + 3 - loc_x(q)),
        adjacent(p, q) == adjacent(4 * (3 - loc_y(p)) + loc_x(p), 4 * (3 - loc_y(q)) + loc_x(q)),
{
}

/// Two locations are neighbours when they are one step apart along a row, a
/// column or a diagonal, and never when their columns or rows lie two or
/// more apart.
pub proof fn lemma_adjacent_steps(p: int, q: int)
    requires
        is_loc(p),
        is_loc(q),
    ensures
        loc_x(p) < 3 ==> adjacent(p, p + 1),
        loc_y(p) < 3 ==> adjacent(p, p + 4),
        loc_x(p) < 3 && loc_y(p) < 3 ==> adjacent(p, p + 5),
        loc_x(p) > 0 && loc_y(p) < 3 ==> adjacent(p, p + 3),
        (loc_x(p) - loc_x(q) >= 2 || loc_x(q) - loc_x(p) >= 2 || loc_y(p) - loc_y(q) >= 2
            || loc_y(q) - loc_y(p) >= 2) ==> !adjacent(p, q),
{
}

/// The location a path continues from: its last one, or location 0 while the
/// path is empty (its count field, zero, is then read as a location).
pub open spec fn last_loc(path: Seq<int>) -> int {
    if path.len() == 0 {
        0
    } else {
        path.last()
    }
}

/// Whether `path` may continue to `q`: a neighbour of its last location that
/// it has not visited.
pub open spec fn may_extend(path: Seq<int>, q: int) -> bool {
    adjacent(last_loc(path), q) && !path.contains(q)
}

/// The locations below `i` that `path` may continue to, in increasing order.
pub open spec fn extensions_below(path: Seq<int>, i: int) -> Seq<int>
    decreases i,
{
    if i <= 0 {
        seq![]
    } else if may_extend(path, i - 1) {
        extensions_below(path, i - 1).push(i - 1)
    } else {
        extensions_below(path, i - 1)
    }
}

/// The locations that `path` may continue to, from the highest number down.
pub open spec fn next_locs(path: Seq<int>) -> Seq<int> {
    extensions_below(path, 16).reverse()
}

/// The number of neighbours of `p` numbered below `i`.
pub open spec fn neighbours_below(p: int, i: int) -> nat
    decreases i,
{
    if i <= 0 {
        0
    } else if adjacent(p, i - 1) {
        neighbours_below(p, i - 1) + 1
    } else {
        neighbours_below(p, i - 1)
    }
}

proof fn lemma_extensions_len(path: Seq<int>, i: int)
    ensures
        extensions_below(path, i).len() <= neighbours_below(last_loc(path), i),
    decreases i,
{
    if i > 0 {
        lemma_extensions_len(path, i - 1);
    }
}

proof fn lemma_extensions_mono(path: Seq<int>, i: int, j: int)
    requires
        i <= j,
    ensures
        extensions_below(path, i).len() <= extensions_below(path, j).len(),
    decreases j - i,
{
    if i < j {
        lemma_extensions_mono(path, i, j - 1);
    }
}

pub proof fn lemma_extensions_elems(path: Seq<int>, i: int)
    ensures
        forall|k: int| 0 <= k < extensions_below(path, i).len() ==>
            may_extend(path, #[trigger] extensions_below(path, i)[k]) && extensions_below(path, i)[k] < i,
        forall|k: int, l: int| 0 <= k < l < extensions_below(path, i).len() ==>
            extensions_below(path, i)[k] < extensions_below(path, i)[l],
        forall|q: int| 0 <= q < i && may_extend(path, q) ==> extensions_below(path, i).contains(q),
    decreases i,
{
    if i > 0 {
        lemma_extensions_elems(path, i - 1);
        let prev = extensions_below(path, i - 1);
        if may_extend(path, i - 1) {
            assert forall|q: int| 0 <= q < i && may_extend(path, q) implies
                extensions_below(path, i).contains(q) by {
                if q < i - 1 {
                    let k = choose|k: int| 0 <= k < prev.len() && prev[k] == q;
                    assert(extensions_below(path, i)[k] == q);
                } else {
                    assert(extensions_below(path, i)[prev.len() as int] == q);
                }
            }
        }
    }
}

/// No tile has more than 8 neighbours.
proof fn lemma_neighbour_count(p: int)
    ensures
        neighbours_below(p, 16) <= 8,
{
    reveal_with_fuel(neighbours_below, 17);
    assert(neighbours_below(p, 16) <= 8);
}

/// A path has at most 8 next locations, each a neighbour of its last location
/// that it has not visited, and none of them comes twice.
pub proof fn lemma_next_locs_bounds(path: Seq<int>)
    ensures
        next_locs(path).len() <= 8,
        next_locs(path).no_duplicates(),
        forall|k: int| 0 <= k < next_locs(path).len() ==> may_extend(path, #[trigger] next_locs(path)[k])
            && is_loc(next_locs(path)[k]),
{
    lemma_extensions_len(path, 16);
    lemma_neighbour_count(last_loc(path));
    lemma_extensions_elems(path, 16);
    let e = extensions_below(path, 16);
    let n = next_locs(path);
    assert forall|k: int| 0 <= k < n.len() implies may_extend(path, #[trigger] n[k]) && is_loc(n[k]) by {
        assert(n[k] == e[e.len() - 1 - k]);
    }
    assert forall|i: int, j: int| 0 <= i < n.len() && 0 <= j < n.len() && i != j implies n[i] != n[j] by {
        assert(n[i] == e[e.len() - 1 - i] && n[j] == e[e.len() - 1 - j]);
        if i < j {
            assert(e[e.len() - 1 - j] < e[e.len() - 1 - i]);
        } else {
            assert(e[e.len() - 1 - i] < e[e.len() - 1 - j]);
        }
    }
}

/// Visiting more locations never adds next locations: a path that ends where
/// another does and has visited all that the other has visited may continue
/// only to locations the other may continue to.
pub proof fn lemma_next_locs_shrink(p: Seq<int>, q: Seq<int>)
    requires
        p.len() > 0,
        q.len() > 0,
        p.last() == q.last(),
        forall|x: int| p.contains(x) ==> q.contains(x),
    ensures
        forall|x: int| next_locs(q).contains(x) ==> next_locs(p).contains(x),
{
    lemma_extensions_elems(p, 16);
    lemma_extensions_elems(q, 16);
    let ep = extensions_below(p, 16);
    let eq = extensions_below(q, 16);
    assert forall|x: int| next_locs(q).contains(x) implies next_locs(p).contains(x) by {
        let k = choose|k: int| 0 <= k < next_locs(q).len() && next_locs(q)[k] == x;
        assert(x == eq[eq.len() - 1 - k]);
        assert(may_extend(q, x));
        assert(may_extend(p, x));
        assert(ep.contains(x));
        let j = choose|j: int| 0 <= j < ep.len() && ep[j] == x;
        assert(next_locs(p)[ep.len() - 1 - j] == x);
    }
}

impl TileLocation {
    #[verifier::type_invariant]
    spec fn inv(self) -> bool {
        self.x <= 3 && self.y <= 3
    }

    /// The tile number `col + 4 * row` of this location.
    pub closed spec fn index_spec(self) -> int {
        self.col() + 4 * self.row()
    }

    /// The column of this location (its field is never above 3).
    pub closed spec fn col(self) -> int {
        (self.x % 4) as int
    }

    /// The row of this location (its field is never above 3).
    pub closed spec fn row(self) -> int {
        (self.y % 4) as int
    }

    /// A location's column and row are at most 3, and its number is
    /// `col + 4 * row`.
    pub proof fn lemma_location(self)
        ensures
            0 <= self.col() <= 3,
            0 <= self.row() <= 3,
            self.index_spec() == self.col() + 4 * self.row(),
            is_loc(self.index_spec()),
            loc_x(self.index_spec()) == self.col(),
            loc_y(self.index_spec()) == self.row(),
    {
    }

    /// Every location of the board, in increasing number: row by row, each
    /// row from column 0 to 3.
    pub fn all() -> (r: Vec<TileLocation>)
        ensures
            r.len() == 16,
            forall|i: int| 0 <= i < 16 ==> #[trigger] r[i].index_spec() == i,
    {
        let mut r: Vec<TileLocation> = Vec::new();
        let mut y: usize = 0;
        while y < 4
            invariant
                y <= 4,
                r.len() == 4 * y,
                forall|i: int| 0 <= i < r.len() ==> #[trigger] r[i].index_spec() == i,
            decreases 4 - y,
        {
            let mut x: usize = 0;
            while x < 4
                invariant
                    y < 4,
                    x <= 4,
                    r.len() == 4 * y + x,
                    forall|i: int| 0 <= i < r.len() ==> #[trigger] r[i].index_spec() == i,
                decreases 4 - x,
            {
                r.push(TileLocation { x, y });
                x += 1;
            }
            y += 1;
        }
        r
    }

    /// The location in column `x` and row `y`, refused where either is above 3.
    pub fn try_from(xy: (usize, usize)) -> (r: Result<TileLocation, &'static str>)
        ensures
            match r {
                Ok(l) => xy.0 <= 3 && xy.1 <= 3 && l.col() == xy.0 && l.row() == xy.1
                    && l.index_spec() == xy.0 + 4 * xy.1,
                Err(e) => (xy.0 > 3 || xy.1 > 3) && e == "Number too big, smaller number please :)",
            },
    {
        let (x, y) = xy;
        if x > 3 || y > 3 {
            return Err("Number too big, smaller number please :)");
        }
        Ok(TileLocation { x, y })
    }
}

impl From<TileLocation> for u8 {
    fn from(loc: TileLocation) -> (r: u8) {
        proof { use_type_invariant(&loc); }
        let TileLocation { x, y } = loc;
        let r = (x as u8) | ((y << 2) as u8);
        assert(r == x + 4 * y) by (bit_vector)
            requires x <= 3, y <= 3, r == (x as u8) | ((y << 2) as u8);
        r
    }
}

impl vstd::std_specs::convert::FromSpecImpl<TileLocation> for u8 {
    open spec fn obeys_from_spec() -> bool {
        true
    }

    open spec fn from_spec(v: TileLocation) -> u8 {
        v.index_spec() as u8
    }
}


/// A path around the board, packed into one word: the lowest four bits hold
/// the number of locations, and each following group of four bits holds one
/// location number, in the order the path visits them. At most 15 fit.
#[derive(Clone, Copy)]
pub struct BoardPath {
    locations_packed: u64,
}

impl BoardPath {
    #[verifier::type_invariant]
    spec fn inv(self) -> bool {
        let n = self.locations_packed & 15;
        n == 15 || self.locations_packed >> (((n + 1) * 4) as u64) == 0
    }

    /// The location numbers of the path, in order.
    pub closed spec fn locs(self) -> Seq<int> {
        let n = self.locations_packed & 15;
        Seq::new(n as nat, |i: int| nibble(self.locations_packed, (i + 1) as u64) as int)
    }

    /// A path holds at most 15 locations, each a location number.
    pub proof fn lemma_locs_wf(self)
        ensures
            self.locs().len() <= 15,
            forall|i: int| 0 <= i < self.locs().len() ==> is_loc(#[trigger] self.locs()[i]),
    {
        let v = self.locations_packed;
        assert(v & 15 <= 15) by (bit_vector);
        assert forall|i: int| 0 <= i < self.locs().len() implies is_loc(#[trigger] self.locs()[i]) by {
            lemma_nibble_bound(v, (i + 1) as u64);
        }
    }

    /// The path that visits only `tile_loc`.
    pub fn starting_at(tile_loc: TileLocation) -> (r: Self)
        ensures
            r.locs() == seq![tile_loc.index_spec()],
    {
        proof {
            assert(0u64 >> (((0u64 & 15) + 1) * 4) as u64 == 0) by (bit_vector);
        }
        let mut board_path = Self { locations_packed: 0 };
        proof {
            assert(0u64 & 15 == 0) by (bit_vector);
            assert(board_path.locs() =~= Seq::<int>::empty());
        }
        board_path.push(tile_loc);
        board_path
    }

    /// Appends `index` to the path. The path must have room for it.
    pub fn push(&mut self, index: TileLocation)
        requires
            old(self).locs().len() < 15,
        ensures
            final(self).locs() == old(self).locs().push(index.index_spec()),
    {
        proof {
            use_type_invariant(&*self);
            use_type_invariant(&index);
        }
        let v = self.locations_packed;
        let shift = v & 0b1111;
        let loc: u8 = u8::from(index);
        proof {
            assert(shift == v & 15);
            assert(loc < 16);
            lemma_push_nibble(v, loc as u64, 0);
        }
        let w = (v | ((loc as u64) << ((shift + 1) * 4))) + 1;
        assert(w == pushed(v, loc as u64));
        self.locations_packed = w;
        proof {
            let old_locs = old(self).locs();
            let new_locs = self.locs();
            assert forall|i: int| 0 <= i < new_locs.len() implies
                new_locs[i] == old_locs.push(index.index_spec())[i] by {
                lemma_push_nibble(v, loc as u64, (i + 1) as u64);
            }
            assert(new_locs =~= old_locs.push(index.index_spec()));
        }
    }

    /// The set of neighbours of the tile numbered `packed_tile_loc`, one bit per
    /// tile number.
    pub fn tile_position_to_neighbour_bitmask(packed_tile_loc: u64) -> (mask: u16)
        requires
            packed_tile_loc <= 15,
        ensures
            forall|q: u16| q < 16 ==> (bit16(mask, q) <==> adjacent(packed_tile_loc as int, q as int)),
    {
        let p = packed_tile_loc;
        let x = p & 0b11;
        let y = p >> 2;
        assert(x == p % 4 && y == p / 4 && x <= 3 && y <= 3) by (bit_vector)
            requires p <= 15, x == p & 3, y == p >> 2;
        let mut mask: u16 = 0;
        let xmin = x.saturating_sub(1);
        let ymin = y.saturating_sub(1);
        let xmax = if x == 3 { 3 } else { x + 1 };
        let ymax = if y == 3 { 3 } else { y + 1 };
        proof {
            assert forall|q: u16| q < 16 implies !bit16(mask, q) by {
                lemma_bit16_zero(q);
            }
        }
        let mut xx = xmin;
        while xx <= xmax
            invariant
                p <= 15,
                x == p % 4,
                y == p / 4,
                x <= 3,
                y <= 3,
                xmin == if x == 0 { 0 } else { x - 1 },
                ymin == if y == 0 { 0 } else { y - 1 },
                xmax == if x == 3 { 3 } else { x + 1 },
                ymax == if y == 3 { 3 } else { y + 1 },
                xmin <= xx <= xmax + 1,
                forall|q: u16| q < 16 ==> (bit16(mask, q) <==> (adjacent(p as int, q as int)
                    && loc_x(q as int) < xx)),
            decreases xmax + 1 - xx,
        {
            let mut yy = ymin;
            while yy <= ymax
                invariant
                    p <= 15,
                    x == p % 4,
                    y == p / 4,
                    x <= 3,
                    y <= 3,
                    xmin == if x == 0 { 0 } else { x - 1 },
                    ymin == if y == 0 { 0 } else { y - 1 },
                    xmax == if x == 3 { 3 } else { x + 1 },
                    ymax == if y == 3 { 3 } else { y + 1 },
                    xmin <= xx <= xmax,
                    ymin <= yy <= ymax + 1,
                    forall|q: u16| q < 16 ==> (bit16(mask, q) <==> (adjacent(p as int, q as int)
                        && (loc_x(q as int) < xx || (loc_x(q as int) == xx && loc_y(q as int) < yy)))),
                decreases ymax + 1 - yy,
            {
                if xx == x && yy == y {
                    yy += 1;
                    continue;
                }
                let tilepos_packed = xx | (yy << 2);
                assert(tilepos_packed == xx + 4 * yy) by (bit_vector)
                    requires xx <= 3, yy <= 3, tilepos_packed == xx | (yy << 2);
                let t = tilepos_packed as u16;
                let ghost old_mask = mask;
                mask = mask | (1u16 << t);
                proof {
                    assert forall|q: u16| q < 16 implies (bit16(mask, q) <==> (adjacent(p as int, q as int)
                        && (loc_x(q as int) < xx || (loc_x(q as int) == xx && loc_y(q as int) < yy + 1)))) by {
                        lemma_bit16_set(old_mask, t, q);
                    }
                }
                yy += 1;
            }
            xx += 1;
        }
        mask
    }

    /// The locations this path may continue to: the neighbours of its last
    /// location that it has not visited, yielded from the highest number down.
    pub fn valid_next_tiles(&self) -> (r: NextTileIterator)
        ensures
            r.remaining() == next_locs(self.locs()),
    {
        proof {
            use_type_invariant(self);
            self.lemma_locs_wf();
        }
        let v = self.locations_packed;
        let ghost path = self.locs();
        let no_locs = v & 0b1111;
        let last_tile_loc = (v >> (no_locs * 4)) & 0b1111;
        proof {
            lemma_nibble_bound(v, no_locs);
            assert(v & 15 <= 15) by (bit_vector);
            if no_locs == 0 {
                assert((v >> 0u64) & 15 == v & 15) by (bit_vector);
            } else {
                assert(path[path.len() - 1] == nibble(v, no_locs) as int);
            }
            assert(last_tile_loc as int == last_loc(path));
        }
        let mut mask = Self::tile_position_to_neighbour_bitmask(last_tile_loc);
        let mut i: u64 = 1;
        while i < no_locs
            invariant
                path == self.locs(),
                v == self.locations_packed,
                no_locs == v & 15,
                no_locs <= 15,
                path.len() == no_locs,
                1 <= i,
                i <= no_locs || i == 1,
                forall|q: u16| q < 16 ==> (bit16(mask, q) <==> (adjacent(last_loc(path), q as int)
                    && forall|k: int| 0 <= k < i - 1 ==> path[k] != q as int)),
            decreases no_locs - i,
        {
            let tile_loc = (v >> (i * 4)) & 0b1111;
            proof {
                lemma_nibble_bound(v, i);
                assert(path[i - 1] == tile_loc as int);
            }
            let ghost old_mask = mask;
            mask = mask & !(1u16 << (tile_loc as u16));
            proof {
                assert forall|q: u16| q < 16 implies (bit16(mask, q) <==> (adjacent(last_loc(path), q as int)
                    && forall|k: int| 0 <= k < i + 1 - 1 ==> path[k] != q as int)) by {
                    lemma_bit16_clear(old_mask, tile_loc as u16, q);
                    if bit16(mask, q) {
                        assert forall|k: int| 0 <= k < i + 1 - 1 implies path[k] != q as int by {
                            if k < i - 1 {
                            } else {
                                assert(k == i - 1);
                            }
                        }
                    }
                }
            }
            i += 1;
        }
        proof {
            assert forall|q: u16| q < 16 implies (bit16(mask, q) <==> may_extend(path, q as int)) by {
                if bit16(mask, q) {
                    if path.contains(q as int) {
                        let k = choose|k: int| 0 <= k < path.len() && path[k] == q as int;
                        assert(k == path.len() - 1);
                        assert(path.last() == path[path.len() - 1]);
                        assert(false);
                    }
                } else if may_extend(path, q as int) {
                    assert(!(forall|k: int| 0 <= k < i - 1 ==> path[k] != q as int));
                    let k = choose|k: int| 0 <= k < i - 1 && path[k] == q as int;
                    assert(0 <= k < path.len() && path[k] == q as int);
                    assert(path.contains(q as int));
                }
            }
            lemma_extensions_len(path, 16);
            lemma_neighbour_count(last_loc(path));
        }
        let mut packed_tile_locs: u32 = 0;
        let mut count: u64 = 0;
        proof {
            assert((0u32 as u64) >> ((0u64 * 4) as u64) == 0) by (bit_vector);
        }
        let mut i: u32 = 0;
        while i < 16
            invariant
                i <= 16,
                forall|q: u16| q < 16 ==> (bit16(mask, q) <==> may_extend(path, q as int)),
                extensions_below(path, 16).len() <= 8,
                count == extensions_below(path, i as int).len(),
                count <= 8,
                (packed_tile_locs as u64) >> ((count * 4) as u64) == 0,
                forall|j: u32| (j as u64) < count ==> nibble32(packed_tile_locs, j) as int
                    == extensions_below(path, i as int)[count - 1 - j],
            decreases 16 - i,
        {
            if (mask >> (i as u16)) & 1 == 1 {
                proof {
                    lemma_extensions_mono(path, i + 1, 16);
                    let ghost ext = extensions_below(path, i as int + 1);
                    assert(ext.len() == count + 1);
                }
                let ghost old_locs = packed_tile_locs;
                proof {
                    assert forall|j: u32| (j as u64) < count + 1 implies #[trigger] nibble32(((old_locs << 4u32) | i) as u32, j) as int
                        == extensions_below(path, i as int + 1)[count + 1 - 1 - j] by {
                        if j == 0 {
                            lemma_shift_in(old_locs, count, i, 0);
                        } else {
                            lemma_shift_in(old_locs, count, i, (j - 1) as u32);
                        }
                    }
                    lemma_shift_in(old_locs, count, i, 0);
                }
                packed_tile_locs <<= 4;
                packed_tile_locs |= i;
                count += 1;
            }
            i += 1;
        }
        proof {
            assert forall|j: u64| j < count implies nibble(((packed_tile_locs as u64) << 8u64) | (count << 4u64), (j + 2) as u64)
                == #[trigger] nibble32(packed_tile_locs, j as u32) as u64 by {
                lemma_layout(packed_tile_locs, count, j);
            }
            lemma_layout(packed_tile_locs, count, 0);
        }
        let r = NextTileIterator { packed: ((packed_tile_locs as u64) << 8) | (count << 4) };
        proof {
            let ext = extensions_below(path, 16);
            assert forall|j: int| 0 <= j < r.remaining().len() implies r.remaining()[j] == ext.reverse()[j] by {
                assert(nibble(r.packed, (j + 2) as u64) == nibble32(packed_tile_locs, j as u32) as u64);
            }
            assert(r.remaining() =~= ext.reverse());
        }
        r
    }

    /// Iterates over the locations of the path, in order.
    pub fn into_iter(self) -> (r: BoardPathIterator)
        ensures
            r.remaining() == self.locs(),
    {
        let r = BoardPathIterator { path: self, i: 0 };
        proof {
            assert(r.remaining() =~= self.locs());
        }
        r
    }

    /// The path through `locations`, in order: the path that starts at the
    /// first of them and has the others pushed onto it.
    pub fn from_locations(locations: &Vec<TileLocation>) -> (r: Self)
        requires
            1 <= locations.len() <= 15,
        ensures
            r.locs().len() == locations.len(),
            forall|i: int| 0 <= i < locations.len() ==> #[trigger] r.locs()[i] == locations[i].index_spec(),
    {
        let mut path = Self::starting_at(locations[0]);
        let mut i: usize = 1;
        while i < locations.len()
            invariant
                1 <= i <= locations.len() <= 15,
                path.locs().len() == i,
                forall|k: int| 0 <= k < i ==> #[trigger] path.locs()[k] == locations[k].index_spec(),
            decreases locations.len() - i,
        {
            let ghost before = path.locs();
            path.push(locations[i]);
            proof {
                assert forall|k: int| 0 <= k < i + 1 implies #[trigger] path.locs()[k] == locations[k].index_spec() by {
                    if k < i {
                        assert(path.locs()[k] == before[k]);
                    }
                }
            }
            i += 1;
        }
        path
    }

    /// The number of locations on the path.
    pub fn len(&self) -> (r: usize)
        ensures
            r == self.locs().len(),
    {
        let v = self.locations_packed;
        assert(v & 15 <= 15) by (bit_vector);
        (v & 0b1111) as usize
    }
}


/// The locations a path may continue to, packed as a path is: the lowest four
/// bits count the locations already yielded, the next four bits hold how many
/// there are, and the following groups of four bits hold the locations.
pub struct NextTileIterator {
    packed: u64,
}

impl NextTileIterator {
    #[verifier::type_invariant]
    spec fn inv(self) -> bool {
        (self.packed & 15) <= ((self.packed >> 4u64) & 15) <= 14
    }

    /// The locations still to be yielded, in order.
    pub closed spec fn remaining(self) -> Seq<int> {
        let t = self.packed & 15;
        let c = (self.packed >> 4u64) & 15;
        Seq::new((c - t) as nat, |j: int| nibble(self.packed, (t + j + 2) as u64) as int)
    }

    /// Yields the next location, or `None` once all have been yielded.
    pub fn next(&mut self) -> (r: Option<TileLocation>)
        ensures
            old(self).remaining().len() == 0 ==> r is None && final(self).remaining() == old(self).remaining(),
            old(self).remaining().len() > 0 ==> r is Some && r->0.index_spec() == old(self).remaining()[0]
                && final(self).remaining() == old(self).remaining().drop_first(),
    {
        proof {
            use_type_invariant(&*self);
        }
        let v = self.packed;
        assert(v >> 0u64 == v) by (bit_vector);
        assert(v & 15 <= 15 && (v >> 4) & 15 <= 15) by (bit_vector);
        let tile_no = (v & 0b1111) as usize;
        let no_locs = ((v >> 4) & 0b1111) as usize;
        if tile_no == no_locs {
            return None;
        }
        let tile_loc_packed = v >> ((tile_no + 2) * 4);
        let xv = tile_loc_packed & 0b11;
        let yv = (tile_loc_packed >> 2) & 0b11;
        assert(xv + 4 * yv == tile_loc_packed & 15 && xv <= 3 && yv <= 3) by (bit_vector)
            requires xv == tile_loc_packed & 3, yv == (tile_loc_packed >> 2) & 3;
        let x = xv as usize;
        let y = yv as usize;
        proof {
            lemma_inc_low(v, 1);
            assert forall|k: u64| 2 <= k < 16 implies nibble((v + 1) as u64, k) == nibble(v, k) by {
                lemma_inc_low(v, k);
            }
        }
        self.packed = v + 1;
        proof {
            assert(self.remaining() =~= old(self).remaining().drop_first());
        }
        Some(TileLocation { x, y })
    }

    /// The exact number of locations still to be yielded, as lower and upper bound.
    pub fn size_hint(&self) -> (r: (usize, Option<usize>))
        ensures
            r.0 == self.remaining().len(),
            r.1 == Some(r.0),
    {
        proof {
            use_type_invariant(self);
        }
        let v = self.packed;
        let tile_no = (v & 0b1111) as usize;
        let no_locs = ((v >> 4) & 0b1111) as usize;
        let remaining = no_locs - tile_no;
        (remaining, Some(remaining))
    }

    /// All the locations still to be yielded, in order.
    pub fn collect(self) -> (r: Vec<TileLocation>)
        ensures
            r.len() == self.remaining().len(),
            forall|i: int| 0 <= i < r.len() ==> #[trigger] r[i].index_spec() == self.remaining()[i],
    {
        let mut it = self;
        let ghost all = self.remaining();
        let mut r: Vec<TileLocation> = Vec::new();
        loop
            invariant
                all == r@.map_values(|l: TileLocation| l.index_spec()) + it.remaining(),
            ensures
                all == r@.map_values(|l: TileLocation| l.index_spec()) + it.remaining(),
                it.remaining().len() == 0,
            decreases it.remaining().len(),
        {
            let ghost before = it.remaining();
            match it.next() {
                None => {
                    break;
                },
                Some(l) => {
                    r.push(l);
                    proof {
                        assert(all =~= r@.map_values(|l: TileLocation| l.index_spec()) + it.remaining());
                    }
                },
            }
        }
        proof {
            assert(r@.map_values(|l: TileLocation| l.index_spec()) =~= all);
            assert forall|i: int| 0 <= i < r.len() implies #[trigger] r[i].index_spec() == all[i] by {
                assert(r@.map_values(|l: TileLocation| l.index_spec())[i] == r@[i].index_spec());
            }
        }
        r
    }
}

/// Yields the locations of a path, in order.
pub struct BoardPathIterator {
    path: BoardPath,
    i: usize,
}

impl BoardPathIterator {
    /// All the locations still to be yielded, in order.
    pub fn collect(self) -> (r: Vec<TileLocation>)
        ensures
            r.len() == self.remaining().len(),
            forall|i: int| 0 <= i < r.len() ==> #[trigger] r[i].index_spec() == self.remaining()[i],
    {
        let mut it = self;
        let ghost all = self.remaining();
        let mut r: Vec<TileLocation> = Vec::new();
        loop
            invariant
                all == r@.map_values(|l: TileLocation| l.index_spec()) + it.remaining(),
            ensures
                all == r@.map_values(|l: TileLocation| l.index_spec()) + it.remaining(),
                it.remaining().len() == 0,
            decreases it.remaining().len(),
        {
            match it.next() {
                None => {
                    break;
                },
                Some(l) => {
                    r.push(l);
                    proof {
                        assert(all =~= r@.map_values(|l: TileLocation| l.index_spec()) + it.remaining());
                    }
                },
            }
        }
        proof {
            assert(r@.map_values(|l: TileLocation| l.index_spec()) =~= all);
            assert forall|i: int| 0 <= i < r.len() implies #[trigger] r[i].index_spec() == all[i] by {
                assert(r@.map_values(|l: TileLocation| l.index_spec())[i] == r@[i].index_spec());
            }
        }
        r
    }

    #[verifier::type_invariant]
    spec fn inv(self) -> bool {
        self.i <= self.path.locs().len()
    }

    /// The locations still to be yielded, in order.
    pub closed spec fn remaining(self) -> Seq<int> {
        self.path.locs().subrange(self.i as int, self.path.locs().len() as int)
    }

    /// Yields the next location, or `None` once the path is exhausted.
    pub fn next(&mut self) -> (r: Option<TileLocation>)
        ensures
            old(self).remaining().len() == 0 ==> r is None && final(self).remaining() == old(self).remaining(),
            old(self).remaining().len() > 0 ==> r is Some && r->0.index_spec() == old(self).remaining()[0]
                && final(self).remaining() == old(self).remaining().drop_first(),
    {
        proof {
            use_type_invariant(&*self);
            use_type_invariant(&self.path);
            self.path.lemma_locs_wf();
        }
        let no_locs = self.path.len();
        if self.i == no_locs {
            return None;
        }
        let v = self.path.locations_packed;
        let raw = v >> (4 * (self.i as u64 + 1));
        let next_packed_tileloc = raw & 0b1111;
        let xv = next_packed_tileloc & 0b11;
        let yv = next_packed_tileloc >> 2;
        assert(xv + 4 * yv == next_packed_tileloc && xv <= 3 && yv <= 3) by (bit_vector)
            requires xv == next_packed_tileloc & 3, yv == next_packed_tileloc >> 2,
                next_packed_tileloc == raw & 15;
        let x = xv as usize;
        let y = yv as usize;
        self.i += 1;
        proof {
            assert(self.remaining() =~= old(self).remaining().drop_first());
        }
        Some(TileLocation { x, y })
    }

    /// The exact number of locations still to be yielded, as lower and upper bound.
    pub fn size_hint(&self) -> (r: (usize, Option<usize>))
        ensures
            r.0 == self.remaining().len(),
            r.1 == Some(r.0),
    {
        proof {
            use_type_invariant(self);
        }
        let no_locs = self.path.len();
        let remaining = no_locs - self.i;
        (remaining, Some(remaining))
    }
}

} // verus!
