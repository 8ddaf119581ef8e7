//! Names for the piles of a table, and for a place within a pile.

use vstd::prelude::*;

verus! {

/// The kind of a pile, which decides the rules it follows.
#[derive(Clone, Copy, Debug, PartialEq, Eq, Structural, PartialOrd, Ord, Hash)]
pub enum StackType {
    Stock,
    Waste,
    Foundation,
    Tableau,
    Hand,
}

/// The piles of a table. The thirteen piles that stay on the table form a
/// ring, in the order in which they are declared; the hand stands apart.
#[derive(Clone, Copy, Debug, PartialEq, Eq, Structural, PartialOrd, Ord, Hash)]
pub enum StackId {
    Stock,
    Waste,
    Foundation1,
    Foundation2,
    Foundation3,
    Foundation4,
    Tableau1,
    Tableau2,
    Tableau3,
    Tableau4,
    Tableau5,
    Tableau6,
    Tableau7,
    Hand,
}

/// The four foundations, in the order of their names.
pub const FOUNDATIONS: [StackId; 4] = [
    StackId::Foundation1,
    StackId::Foundation2,
    StackId::Foundation3,
    StackId::Foundation4,
];

/// The seven tableaux, in the order of their names.
pub const TABLEAUX: [StackId; 7] = [
    StackId::Tableau1,
    StackId::Tableau2,
    StackId::Tableau3,
    StackId::Tableau4,
    StackId::Tableau5,
    StackId::Tableau6,
    StackId::Tableau7,
];

/// How many piles there are, the hand included.
pub const PILES: usize = 14;

impl StackId {
    /// The position of the pile in the order of declaration, from 0 for the
    /// stock to 13 for the hand.
    pub open spec fn ord(self) -> int {
        match self {
            StackId::Stock => 0,
            StackId::Waste => 1,
            StackId::Foundation1 => 2,
            StackId::Foundation2 => 3,
            StackId::Foundation3 => 4,
            StackId::Foundation4 => 5,
            StackId::Tableau1 => 6,
            StackId::Tableau2 => 7,
            StackId::Tableau3 => 8,
            StackId::Tableau4 => 9,
            StackId::Tableau5 => 10,
            StackId::Tableau6 => 11,
            StackId::Tableau7 => 12,
            StackId::Hand => 13,
        }
    }

    /// The pile at a position; the hand for every position outside the ring.
    pub open spec fn at(i: int) -> StackId {
        if i == 0 {
            StackId::Stock
        } else if i == 1 {
            StackId::Waste
        } else if i == 2 {
            StackId::Foundation1
        } else if i == 3 {
            StackId::Foundation2
        } else if i == 4 {
            StackId::Foundation3
        } else if i == 5 {
            StackId::Foundation4
        } else if i == 6 {
            StackId::Tableau1
        } else if i == 7 {
            StackId::Tableau2
        } else if i == 8 {
            StackId::Tableau3
        } else if i == 9 {
            StackId::Tableau4
        } else if i == 10 {
            StackId::Tableau5
        } else if i == 11 {
            StackId::Tableau6
        } else if i == 12 {
            StackId::Tableau7
        } else {
            StackId::Hand
        }
    }

    /// The kind of pile that carries this name.
    pub open spec fn spec_kind(self) -> StackType {
        if self.ord() == 0 {
            StackType::Stock
        } else if self.ord() == 1 {
            StackType::Waste
        } else if self.ord() <= 5 {
            StackType::Foundation
        } else if self.ord() <= 12 {
            StackType::Tableau
        } else {
            StackType::Hand
        }
    }

    /// The pile after this one in the ring, the stock after the last
    /// tableau. The hand is its own successor.
    pub open spec fn spec_next(self) -> StackId {
        if self is Hand {
            StackId::Hand
        } else {
            StackId::at((self.ord() + 1) % 13)
        }
    }

    /// The pile before this one in the ring, the last tableau before the
    /// stock. The hand is its own predecessor.
    pub open spec fn spec_previous(self) -> StackId {
        if self is Hand {
            StackId::Hand
        } else {
            StackId::at((self.ord() + 12) % 13)
        }
    }

    /// The pile reached by `n` steps forward round the ring.
    pub open spec fn forward(self, n: nat) -> StackId
        decreases n,
    {
        if n == 0 {
            self
        } else {
            self.forward((n - 1) as nat).spec_next()
        }
    }

    /// The pile reached by `n` steps backward round the ring.
    pub open spec fn backward(self, n: nat) -> StackId
        decreases n,
    {
        if n == 0 {
            self
        } else {
            self.backward((n - 1) as nat).spec_previous()
        }
    }

    /// Whether this is one of the four foundations.
    pub open spec fn spec_is_foundation(self) -> bool {
        2 <= self.ord() <= 5
    }

    /// Whether this is one of the seven tableaux.
    pub open spec fn spec_is_tableau(self) -> bool {
        6 <= self.ord() <= 12
    }

    /// The pile after this one; after the last tableau the stock if
    /// `wrap` is set, and none if it is not.
    fn next_impl(&self, wrap: bool) -> (r: Option<Self>)
        ensures
            r == if *self is Tableau7 && !wrap {
                None
            } else {
                Some(self.spec_next())
            },
    {
        match self {
            StackId::Stock => Some(StackId::Waste),
            StackId::Waste => Some(StackId::Foundation1),
            StackId::Foundation1 => Some(StackId::Foundation2),
            StackId::Foundation2 => Some(StackId::Foundation3),
            StackId::Foundation3 => Some(StackId::Foundation4),
            StackId::Foundation4 => Some(StackId::Tableau1),
            StackId::Tableau1 => Some(StackId::Tableau2),
            StackId::Tableau2 => Some(StackId::Tableau3),
            StackId::Tableau3 => Some(StackId::Tableau4),
            StackId::Tableau4 => Some(StackId::Tableau5),
            StackId::Tableau5 => Some(StackId::Tableau6),
            StackId::Tableau6 => Some(StackId::Tableau7),
            StackId::Tableau7 => {
                if wrap {
                    Some(StackId::Stock)
                } else {
                    None
                }
            },
            StackId::Hand => Some(StackId::Hand),
        }
    }

    /// The pile after this one in the order of declaration, and `None` after
    /// the last tableau. The hand is its own successor.
    pub fn next_no_wrap(&self) -> (r: Option<Self>)
        ensures
            r == if *self is Tableau7 {
                None
            } else {
                Some(StackId::at(self.ord() + 1))
            },
    {
        self.next_impl(false)
    }

    /// The pile after this one in the ring.
    pub fn next(&self) -> (r: Self)
        ensures
            r == self.spec_next(),
    {
        match self.next_impl(true) {
            Some(id) => id,
            None => *self,
        }
    }

    /// The pile before this one in the ring.
    pub fn previous(&self) -> (r: Self)
        ensures
            r == self.spec_previous(),
    {
        match self {
            StackId::Stock => StackId::Tableau7,
            StackId::Waste => StackId::Stock,
            StackId::Foundation1 => StackId::Waste,
            StackId::Foundation2 => StackId::Foundation1,
            StackId::Foundation3 => StackId::Foundation2,
            StackId::Foundation4 => StackId::Foundation3,
            StackId::Tableau1 => StackId::Foundation4,
            StackId::Tableau2 => StackId::Tableau1,
            StackId::Tableau3 => StackId::Tableau2,
            StackId::Tableau4 => StackId::Tableau3,
            StackId::Tableau5 => StackId::Tableau4,
            StackId::Tableau6 => StackId::Tableau5,
            StackId::Tableau7 => StackId::Tableau6,
            StackId::Hand => StackId::Hand,
        }
    }

    /// Whether this is one of the four foundations.
    pub fn is_foundation(&self) -> (r: bool)
        ensures
            r == self.spec_is_foundation(),
    {
        match self {
            StackId::Foundation1
            | StackId::Foundation2
            | StackId::Foundation3
            | StackId::Foundation4 => true,
            _ => false,
        }
    }

    /// Whether this is one of the seven tableaux.
    pub fn is_tableau(&self) -> (r: bool)
        ensures
            r == self.spec_is_tableau(),
    {
        match self {
            StackId::Tableau1
            | StackId::Tableau2
            | StackId::Tableau3
            | StackId::Tableau4
            | StackId::Tableau5
            | StackId::Tableau6
            | StackId::Tableau7 => true,
            _ => false,
        }
    }

    /// The kind of pile that carries this name.
    pub fn kind(&self) -> (r: StackType)
        ensures
            r == self.spec_kind(),
    {
        match self {
            StackId::Stock => StackType::Stock,
            StackId::Waste => StackType::Waste,
            StackId::Foundation1
            | StackId::Foundation2
            | StackId::Foundation3
            | StackId::Foundation4 => StackType::Foundation,
            StackId::Hand => StackType::Hand,
            _ => StackType::Tableau,
        }
    }

    /// The position of the pile in the order of declaration.
    pub fn index(&self) -> (r: usize)
        ensures
            r == self.ord(),
            r < PILES,
    {
        match self {
            StackId::Stock => 0,
            StackId::Waste => 1,
            StackId::Foundation1 => 2,
            StackId::Foundation2 => 3,
            StackId::Foundation3 => 4,
            StackId::Foundation4 => 5,
            StackId::Tableau1 => 6,
            StackId::Tableau2 => 7,
            StackId::Tableau3 => 8,
            StackId::Tableau4 => 9,
            StackId::Tableau5 => 10,
            StackId::Tableau6 => 11,
            StackId::Tableau7 => 12,
            StackId::Hand => 13,
        }
    }

    /// The pile at a position in the order of declaration; the hand for
    /// every position past the last tableau.
    pub fn from_index(i: usize) -> (r: Self)
        ensures
            r == StackId::at(i as int),
    {
        if i == 0 {
            StackId::Stock
        } else if i == 1 {
            StackId::Waste
        } else if i == 2 {
            StackId::Foundation1
        } else if i == 3 {
            StackId::Foundation2
        } else if i == 4 {
            StackId::Foundation3
        } else if i == 5 {
            StackId::Foundation4
        } else if i == 6 {
            StackId::Tableau1
        } else if i == 7 {
            StackId::Tableau2
        } else if i == 8 {
            StackId::Tableau3
        } else if i == 9 {
            StackId::Tableau4
        } else if i == 10 {
            StackId::Tableau5
        } else if i == 11 {
            StackId::Tableau6
        } else if i == 12 {
            StackId::Tableau7
        } else {
            StackId::Hand
        }
    }
}

/// A place in a pile: the pile and the position of a card in it, counted
/// from the bottom.
#[derive(Clone, Copy, Debug, PartialEq, Eq, Structural, PartialOrd, Ord, Hash)]
pub struct Source {
    pub stack: StackId,
    pub index: usize,
}

impl Source {
    /// The place at `index` in `stack`.
    pub fn new(stack: StackId, index: usize) -> (s: Self)
        ensures
            s == (Source { stack, index }),
    {
        Self { stack, index }
    }

    /// The bottom of the stock.
    pub fn stock() -> (s: Self)
        ensures
            s == (Source { stack: StackId::Stock, index: 0 }),
    {
        Source { stack: StackId::Stock, index: 0 }
    }
}

/// Stepping forward and then backward, or backward and then forward, comes
/// back to the same pile, and every pile stands at its own position.
pub proof fn lemma_ring(id: StackId)
    ensures
        id.spec_next().spec_previous() == id,
        id.spec_previous().spec_next() == id,
        StackId::at(id.ord()) == id,
{
}

/// The pile at a position of the order stands at that position.
pub proof fn lemma_at_ord(i: int)
    requires
        0 <= i < 14,
    ensures
        StackId::at(i).ord() == i,
{
}

} // verus!
