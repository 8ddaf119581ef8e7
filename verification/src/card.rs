//! Suits, ranks and cards.

use vstd::prelude::*;

verus! {

/// The colour of a suit.
#[derive(Clone, Copy, Debug, PartialEq, Eq, Structural, Hash)]
pub enum Color {
    Black,
    Red,
}

/// The four suits, from the lowest to the highest.
#[derive(Clone, Copy, Debug, PartialEq, Eq, Structural, PartialOrd, Ord, Hash)]
pub enum Suit {
    Club,
    Diamond,
    Heart,
    Spade,
}

impl Suit {
    /// Diamonds and hearts are red, clubs and spades black.
    pub open spec fn spec_color(self) -> Color {
        match self {
            Suit::Diamond | Suit::Heart => Color::Red,
            Suit::Club | Suit::Spade => Color::Black,
        }
    }

    /// The colour of this suit.
    pub fn color(&self) -> (c: Color)
        ensures
            c == self.spec_color(),
    {
        match self {
            Suit::Diamond | Suit::Heart => Color::Red,
            Suit::Club | Suit::Spade => Color::Black,
        }
    }
}

/// The thirteen ranks, ace low.
#[derive(Clone, Copy, Debug, PartialEq, Eq, Structural, PartialOrd, Ord, Hash)]
pub enum Rank {
    Ace,
    Two,
    Three,
    Four,
    Five,
    Six,
    Seven,
    Eight,
    Nine,
    Ten,
    Jack,
    Queen,
    King,
}

impl Rank {
    /// The number of the rank: 1 for the ace up to 13 for the king.
    pub open spec fn spec_number(self) -> int {
        match self {
            Rank::Ace => 1,
            Rank::Two => 2,
            Rank::Three => 3,
            Rank::Four => 4,
            Rank::Five => 5,
            Rank::Six => 6,
            Rank::Seven => 7,
            Rank::Eight => 8,
            Rank::Nine => 9,
            Rank::Ten => 10,
            Rank::Jack => 11,
            Rank::Queen => 12,
            Rank::King => 13,
        }
    }

    /// The number of the rank: 1 for the ace up to 13 for the king.
    pub fn number(&self) -> (n: u8)
        ensures
            n == self.spec_number(),
            1 <= n <= 13,
    {
        match self {
            Rank::Ace => 1,
            Rank::Two => 2,
            Rank::Three => 3,
            Rank::Four => 4,
            Rank::Five => 5,
            Rank::Six => 6,
            Rank::Seven => 7,
            Rank::Eight => 8,
            Rank::Nine => 9,
            Rank::Ten => 10,
            Rank::Jack => 11,
            Rank::Queen => 12,
            Rank::King => 13,
        }
    }
}

/// The letter or digit that a rank is written with: `A` for the ace, `T`
/// for the ten, `J`, `Q` and `K` for the court cards.
impl From<Rank> for &'static str {
    /// The label of a rank.
    fn from(rank: Rank) -> (label: Self) {
        match rank {
            Rank::Ace => "A",
            Rank::Two => "2",
            Rank::Three => "3",
            Rank::Four => "4",
            Rank::Five => "5",
            Rank::Six => "6",
            Rank::Seven => "7",
            Rank::Eight => "8",
            Rank::Nine => "9",
            Rank::Ten => "T",
            Rank::Jack => "J",
            Rank::Queen => "Q",
            Rank::King => "K",
        }
    }
}

impl vstd::std_specs::convert::FromSpecImpl<Rank> for &'static str {
    /// The conversion is what `from_spec` says.
    open spec fn obeys_from_spec() -> bool {
        true
    }

    /// The label of each rank.
    open spec fn from_spec(rank: Rank) -> Self {
        match rank {
            Rank::Ace => "A",
            Rank::Two => "2",
            Rank::Three => "3",
            Rank::Four => "4",
            Rank::Five => "5",
            Rank::Six => "6",
            Rank::Seven => "7",
            Rank::Eight => "8",
            Rank::Nine => "9",
            Rank::Ten => "T",
            Rank::Jack => "J",
            Rank::Queen => "Q",
            Rank::King => "K",
        }
    }
}

/// A playing card. Suit and rank never change; the card may be turned over.
#[derive(Clone, Copy, Debug, PartialEq, Eq, Structural, PartialOrd, Ord, Hash)]
pub struct Card {
    pub suit: Suit,
    pub rank: Rank,
    pub face_up: bool,
}

impl Card {
    /// Both cards are red or both are black.
    pub open spec fn same_color(self, other: Card) -> bool {
        self.suit.spec_color() == other.suit.spec_color()
    }

    /// `other` ranks exactly one above this card.
    pub open spec fn one_below(self, other: Card) -> bool {
        other.rank.spec_number() - self.rank.spec_number() == 1
    }

    /// This card with the given side up.
    pub open spec fn turned(self, face_up: bool) -> Card {
        Card { suit: self.suit, rank: self.rank, face_up }
    }

    /// Suit and rank, which identify the card whichever side is up.
    pub open spec fn identity(self) -> (Suit, Rank) {
        (self.suit, self.rank)
    }

    /// Whether both cards are red or both are black.
    pub fn is_same_color(&self, other: &Card) -> (r: bool)
        ensures
            r == self.same_color(*other),
    {
        self.suit.color() == other.suit.color()
    }

    /// Whether `other` ranks exactly one above this card.
    pub fn is_one_below(&self, other: &Card) -> (r: bool)
        ensures
            r == self.one_below(*other),
    {
        other.rank.number() == self.rank.number() + 1
    }
}

} // verus!
