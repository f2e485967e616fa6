//! The nine symbols a cell may hold.

use vstd::prelude::*;

verus! {

/// One of the nine symbols of a Sudoku grid.
///
/// The symbols carry no meaning beyond their identity. Wherever an order is
/// needed (the order in which a search tries candidates), it is the order of
/// declaration, which is also the order of [`Color::code`].
#[derive(Clone, Copy, PartialEq, Eq, Structural, Hash, Debug)]
pub enum Color {
    One,
    Two,
    Three,
    Four,
    Five,
    Six,
    Seven,
    Eight,
    Nine,
}

/// All symbols, in ascending order.
pub const COLORS: [Color; 9] = [
    Color::One,
    Color::Two,
    Color::Three,
    Color::Four,
    Color::Five,
    Color::Six,
    Color::Seven,
    Color::Eight,
    Color::Nine,
];

impl Color {
    /// The number of the symbol, from 1 to 9.
    pub open spec fn code(self) -> u8 {
        match self {
            Color::One => 1,
            Color::Two => 2,
            Color::Three => 3,
            Color::Four => 4,
            Color::Five => 5,
            Color::Six => 6,
            Color::Seven => 7,
            Color::Eight => 8,
            Color::Nine => 9,
        }
    }

    /// The symbol with the given number, if the number is one of 1 to 9.
    pub open spec fn with_code(k: u8) -> Option<Color> {
        if k == 1 {
            Some(Color::One)
        } else if k == 2 {
            Some(Color::Two)
        } else if k == 3 {
            Some(Color::Three)
        } else if k == 4 {
            Some(Color::Four)
        } else if k == 5 {
            Some(Color::Five)
        } else if k == 6 {
            Some(Color::Six)
        } else if k == 7 {
            Some(Color::Seven)
        } else if k == 8 {
            Some(Color::Eight)
        } else if k == 9 {
            Some(Color::Nine)
        } else {
            None
        }
    }

    /// The symbol that a character of a puzzle text stands for: the digits
    /// `'1'` to `'9'` stand for the nine symbols, every other character for
    /// an empty cell.
    pub open spec fn parse(c: char) -> Option<Color> {
        if c == '1' {
            Some(Color::One)
        } else if c == '2' {
            Some(Color::Two)
        } else if c == '3' {
            Some(Color::Three)
        } else if c == '4' {
            Some(Color::Four)
        } else if c == '5' {
            Some(Color::Five)
        } else if c == '6' {
            Some(Color::Six)
        } else if c == '7' {
            Some(Color::Seven)
        } else if c == '8' {
            Some(Color::Eight)
        } else if c == '9' {
            Some(Color::Nine)
        } else {
            None
        }
    }

    /// The character that shows the content of a cell: a digit for a symbol,
    /// `'.'` for an empty cell.
    pub open spec fn glyph(value: Option<Color>) -> char {
        match value {
            Some(Color::One) => '1',
            Some(Color::Two) => '2',
            Some(Color::Three) => '3',
            Some(Color::Four) => '4',
            Some(Color::Five) => '5',
            Some(Color::Six) => '6',
            Some(Color::Seven) => '7',
            Some(Color::Eight) => '8',
            Some(Color::Nine) => '9',
            None => '.',
        }
    }

    /// Computes [`Color::code`].
    pub fn digit(self) -> (k: u8)
        ensures
            k == self.code(),
            1 <= k <= 9,
    {
        match self {
            Color::One => 1,
            Color::Two => 2,
            Color::Three => 3,
            Color::Four => 4,
            Color::Five => 5,
            Color::Six => 6,
            Color::Seven => 7,
            Color::Eight => 8,
            Color::Nine => 9,
        }
    }

    /// Computes [`Color::with_code`].
    pub fn from_digit(k: u8) -> (color: Option<Color>)
        ensures
            color == Color::with_code(k),
    {
        match k {
            1 => Some(Color::One),
            2 => Some(Color::Two),
            3 => Some(Color::Three),
            4 => Some(Color::Four),
            5 => Some(Color::Five),
            6 => Some(Color::Six),
            7 => Some(Color::Seven),
            8 => Some(Color::Eight),
            9 => Some(Color::Nine),
            _ => None,
        }
    }

    /// Computes [`Color::parse`].
    pub fn from_char(c: char) -> (color: Option<Color>)
        ensures
            color == Color::parse(c),
    {
        match c {
            '1' => Some(Color::One),
            '2' => Some(Color::Two),
            '3' => Some(Color::Three),
            '4' => Some(Color::Four),
            '5' => Some(Color::Five),
            '6' => Some(Color::Six),
            '7' => Some(Color::Seven),
            '8' => Some(Color::Eight),
            '9' => Some(Color::Nine),
            _ => None,
        }
    }

    /// Computes [`Color::glyph`].
    pub fn to_char(value: Option<Color>) -> (c: char)
        ensures
            c == Color::glyph(value),
    {
        match value {
            Some(Color::One) => '1',
            Some(Color::Two) => '2',
            Some(Color::Three) => '3',
            Some(Color::Four) => '4',
            Some(Color::Five) => '5',
            Some(Color::Six) => '6',
            Some(Color::Seven) => '7',
            Some(Color::Eight) => '8',
            Some(Color::Nine) => '9',
            None => '.',
        }
    }
}

/// The set of all nine symbols.
pub open spec fn all_colors() -> Set<Color> {
    set![
        Color::One,
        Color::Two,
        Color::Three,
        Color::Four,
        Color::Five,
        Color::Six,
        Color::Seven,
        Color::Eight,
        Color::Nine,
    ]
}

/// The numbers of the nine symbols.
pub open spec fn all_codes() -> Set<u8> {
    set![1u8, 2u8, 3u8, 4u8, 5u8, 6u8, 7u8, 8u8, 9u8]
}

/// The symbols whose numbers are in `codes`.
pub open spec fn colors_of(codes: Set<u8>) -> Set<Color> {
    Set::new(|c: Color| codes.contains(c.code()))
}

/// Numbers and symbols correspond one to one, and a shown symbol reads back
/// as itself.
pub proof fn lemma_color_codes(c: Color)
    ensures
        1 <= c.code() <= 9,
        Color::with_code(c.code()) == Some(c),
        Color::parse(Color::glyph(Some(c))) == Some(c),
        Color::parse(Color::glyph(None)) == None::<Color>,
        all_colors().contains(c),
        all_codes().contains(c.code()),
{
}

/// A set of numbers of symbols has as many members as the set of those
/// symbols.
pub proof fn lemma_colors_of_len(codes: Set<u8>)
    requires
        codes.subset_of(all_codes()),
    ensures
        codes.finite(),
        codes.len() <= 9,
        colors_of(codes).finite(),
        colors_of(codes).len() == codes.len(),
{
    let colors = colors_of(codes);
    lemma_color_sets_are_small(colors);
    vstd::set_lib::lemma_len_subset(codes, all_codes());
    let f = |c: Color| c.code();
    assert(colors.map(f) =~= codes) by {
        assert forall|k: u8| codes.contains(k) implies colors.map(f).contains(k) by {
            assert(all_codes().contains(k));
            let c = Color::with_code(k)->0;
            assert(c.code() == k);
            assert(colors.contains(c) && f(c) == k);
        }
    }
    assert(vstd::relations::injective_on(f, colors)) by {
        assert forall|a: Color, b: Color| #[trigger] a.code() == #[trigger] b.code() implies a
            == b by {
            lemma_color_codes(a);
            lemma_color_codes(b);
        }
    }
    vstd::set_lib::lemma_map_size(colors, codes, f);
}

/// There are exactly nine symbols, so every set of symbols is finite and has
/// at most nine members.
pub proof fn lemma_color_sets_are_small(s: Set<Color>)
    ensures
        all_colors().finite(),
        all_colors().len() == 9,
        s.finite(),
        s.len() <= 9,
{
    assert(s.subset_of(all_colors())) by {
        assert forall|c: Color| s.contains(c) implies all_colors().contains(c) by {
            lemma_color_codes(c);
        }
    }
    vstd::set_lib::lemma_len_subset(s, all_colors());
}

} // verus!
