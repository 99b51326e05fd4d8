//! The basic value types of the game: colors, cards, pawns, events, actions.

use vstd::prelude::*;

verus! {

/// Index of a player, `0 ..` player count.
pub type PlayerIndex = usize;

/// Global index of a pawn; player `p`'s pawns are `p * 5 ..= p * 5 + 4`.
pub type PawnIndex = usize;

/// A position on a color's path, `0 ..= 8`.
pub type PathPosition = u8;

/// A player's score.
pub type Score = i16;

/// An ordered pile of cards; the logical top is the tail.
pub type CardPile = Vec<Card>;

/// One of the five expedition colors.
#[derive(Clone, Copy, PartialEq, Eq, Structural, Debug)]
pub enum Color {
    Yellow,
    Green,
    White,
    Red,
    Blue,
}

/// The array index that a color denotes wherever piles or boards are kept
/// one per color.
pub open spec fn color_idx(c: Color) -> int {
    match c {
        Color::Yellow => 0,
        Color::Green => 1,
        Color::White => 2,
        Color::Red => 3,
        Color::Blue => 4,
    }
}

/// The color denoted by an array index; inverse of [`color_idx`].
pub open spec fn idx_color(i: int) -> Color {
    if i == 0 {
        Color::Yellow
    } else if i == 1 {
        Color::Green
    } else if i == 2 {
        Color::White
    } else if i == 3 {
        Color::Red
    } else {
        Color::Blue
    }
}

impl Color {
    /// The array index of this color, as executable code.
    pub fn index(self) -> (r: usize)
        ensures
            r == color_idx(self),
    {
        match self {
            Color::Yellow => 0,
            Color::Green => 1,
            Color::White => 2,
            Color::Red => 3,
            Color::Blue => 4,
        }
    }

    /// The color for an array index below 5.
    pub fn from_index(i: usize) -> (c: Color)
        requires
            i < 5,
        ensures
            c == idx_color(i as int),
            color_idx(c) == i,
    {
        if i == 0 {
            Color::Yellow
        } else if i == 1 {
            Color::Green
        } else if i == 2 {
            Color::White
        } else if i == 3 {
            Color::Red
        } else {
            Color::Blue
        }
    }
}

/// A playing card: a color and a number in `0 ..= 10`.
/// The deck holds exactly two copies of each of the 55 combinations.
#[derive(Clone, Copy, PartialEq, Eq, Structural, Debug)]
pub struct Card {
    pub color: Color,
    pub number: i8,
}

impl Card {
    /// Builds the card with the given color and number.
    pub fn new(color: Color, number: i8) -> (c: Card)
        ensures
            c == (Card { color, number }),
    {
        Card { color, number }
    }
}

/// The kind of a pawn.  Each player owns four adventurers and one researcher.
#[derive(Clone, Copy, PartialEq, Eq, Structural, Debug)]
pub enum PawnType {
    Adventurer,
    Researcher,
}

/// A scoring event on a path position.
#[derive(Clone, Copy, PartialEq, Eq, Structural, Debug)]
pub enum Event {
    Points(Score),
    Artifact,
    Arrow,
}

/// One action a player can take; produced by `available_actions` and
/// consumed by `do_action`.
#[derive(Clone, Copy, PartialEq, Eq, Structural, Debug)]
pub enum Action {
    PlayCard(Card),
    DiscardCard(Card),
    DrawFromDeck,
    DrawFromDiscard(Color),
    ChoosePawnType(PawnType),
    MoveColor(Color),
}

} // verus!
