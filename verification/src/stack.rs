//! One pile of cards, and the rules that say which cards in it may be
//! picked up and which cards it accepts.

use crate::card::{Card, Rank, Suit};
use crate::ids::{StackId, StackType};
use vstd::prelude::*;

verus! {

/// Suit and rank of each card of a pile, bottom first.
pub open spec fn identities(cards: Seq<Card>) -> Seq<(Suit, Rank)> {
    cards.map_values(|c: Card| c.identity())
}

/// The position of the lowest card with this rank and suit, if the pile
/// holds one.
pub open spec fn position_of(cards: Seq<Card>, rank: Rank, suit: Suit) -> Option<int> {
    identities(cards).index_of_first((suit, rank))
}

/// The position of the lowest face-up card at or above `from`; the length
/// of the pile if there is none.
pub open spec fn first_face_up(cards: Seq<Card>, from: int) -> int
    decreases cards.len() - from,
{
    if from >= cards.len() {
        cards.len() as int
    } else if 0 <= from && cards[from].face_up {
        from
    } else {
        first_face_up(cards, from + 1)
    }
}

/// The position of the highest face-up card at or below `upto`; -1 if
/// there is none.
pub open spec fn last_face_up(cards: Seq<Card>, upto: int) -> int
    decreases upto + 1,
{
    if upto < 0 {
        -1
    } else if upto < cards.len() && cards[upto].face_up {
        upto
    } else {
        last_face_up(cards, upto - 1)
    }
}

/// A card is the lift point of a pile if it is the lowest face-up card in
/// it: the whole face-up run above it is picked up with it.
pub open spec fn is_lift_point(cards: Seq<Card>, index: int) -> bool {
    0 <= index < cards.len() && first_face_up(cards, 0) == index
}

/// The face-up cards of a pile are exactly the cards from some position up
/// to the top.
pub open spec fn face_up_on_top(cards: Seq<Card>) -> bool {
    forall|i: int, j: int| 0 <= i <= j < cards.len() && cards[i].face_up ==> cards[j].face_up
}

/// The next position after `start` (from the bottom, if there is no
/// `start`) from which cards can be picked up. The stock offers none; waste
/// and foundations offer their top card; the other piles offer every
/// face-up card.
pub open spec fn next_active(kind: StackType, cards: Seq<Card>, start: Option<usize>) -> Option<
    usize,
> {
    let from: int = match start {
        Some(s) => s + 1,
        None => 0,
    };
    if cards.len() == 0 || kind is Stock || from >= cards.len() {
        None
    } else if kind is Foundation || kind is Waste {
        Some((cards.len() - 1) as usize)
    } else if first_face_up(cards, from) < cards.len() {
        Some(first_face_up(cards, from) as usize)
    } else {
        None
    }
}

/// The last position before `start` (from the top, if there is no `start`)
/// that a cursor can rest on. Stock, waste and foundations offer their top
/// card, and only to a cursor that comes from outside; the other piles
/// offer every face-up card.
pub open spec fn previous_active(
    kind: StackType,
    cards: Seq<Card>,
    start: Option<usize>,
) -> Option<usize> {
    if cards.len() == 0 || start == Some(0usize) {
        None
    } else if kind is Stock || kind is Foundation || kind is Waste {
        if start is None {
            Some((cards.len() - 1) as usize)
        } else {
            None
        }
    } else {
        let upto: int = match start {
            Some(s) => if s - 1 < cards.len() - 1 {
                s - 1
            } else {
                cards.len() - 1
            },
            None => cards.len() - 1,
        };
        if last_face_up(cards, upto) >= 0 {
            Some(last_face_up(cards, upto) as usize)
        } else {
            None
        }
    }
}

/// The suit that an empty foundation waits for.
pub open spec fn home_suit(id: StackId) -> Option<Suit> {
    match id {
        StackId::Foundation1 => Some(Suit::Spade),
        StackId::Foundation2 => Some(Suit::Club),
        StackId::Foundation3 => Some(Suit::Heart),
        StackId::Foundation4 => Some(Suit::Diamond),
        _ => None,
    }
}

/// A foundation takes the ace of its suit when empty, and otherwise the
/// card of the suit of its top card that ranks one above it.
pub open spec fn foundation_accepts(id: StackId, cards: Seq<Card>, card: Card) -> bool {
    if cards.len() == 0 {
        card.rank is Ace && home_suit(id) == Some(card.suit)
    } else {
        card.suit == cards.last().suit && cards.last().one_below(card)
    }
}

/// A tableau takes a king when empty, and otherwise a card of the other
/// colour that ranks one below its top card.
pub open spec fn tableau_accepts(cards: Seq<Card>, card: Card) -> bool {
    if cards.len() == 0 {
        card.rank is King
    } else {
        !cards.last().same_color(card) && card.one_below(cards.last())
    }
}

/// Whether a pile takes a run of `count` cards whose lowest card is `card`.
/// A foundation takes one card at a time; a tableau looks at the lowest
/// card of the run only; no other pile takes cards this way.
pub open spec fn accepts_run(
    kind: StackType,
    id: StackId,
    cards: Seq<Card>,
    card: Card,
    count: nat,
) -> bool {
    match kind {
        StackType::Foundation => count == 1 && foundation_accepts(id, cards, card),
        StackType::Tableau => tableau_accepts(cards, card),
        _ => false,
    }
}

/// Whether a pile takes the cards held in hand.
pub open spec fn accepts_hand(
    kind: StackType,
    id: StackId,
    cards: Seq<Card>,
    hand: Seq<Card>,
) -> bool {
    hand.len() > 0 && accepts_run(kind, id, cards, hand[0], hand.len())
}

/// A pile of cards, bottom first, with its name and its kind.
#[derive(Debug, PartialEq, Eq, Hash)]
pub struct Stack {
    pub stack_id: StackId,
    pub stack_type: StackType,
    pub cards: Vec<Card>,
}

impl Clone for Stack {
    /// A stack of its own with the same labels and cards.
    fn clone(&self) -> (r: Self)
        ensures
            r.stack_id == self.stack_id,
            r.stack_type == self.stack_type,
            r.cards@ == self.cards@,
    {
        let cards = self.cards.clone();
        assert(cards@ =~= self.cards@);
        Stack { stack_id: self.stack_id, stack_type: self.stack_type, cards }
    }
}

impl Stack {
    /// An empty pile with the given name, of the kind that goes with it.
    pub fn new(stack_id: StackId) -> (r: Self)
        ensures
            r.stack_id == stack_id,
            r.stack_type == stack_id.spec_kind(),
            r.cards@ == Seq::<Card>::empty(),
    {
        Stack { stack_id, stack_type: stack_id.kind(), cards: Vec::new() }
    }

    /// The position of the lowest card with this rank and suit.
    #[verifier::loop_isolation(false)]
    pub fn find_card(&self, rank: Rank, suit: Suit) -> (r: Option<usize>)
        ensures
            match r {
                Some(i) => {
                    &&& position_of(self.cards@, rank, suit) == Some(i as int)
                    &&& i < self.cards@.len()
                    &&& self.cards@[i as int].rank == rank
                    &&& self.cards@[i as int].suit == suit
                    &&& forall|j: int|
                        0 <= j < i ==> (#[trigger] self.cards@[j]).identity() != (suit, rank)
                },
                None => {
                    &&& position_of(self.cards@, rank, suit) is None
                    &&& forall|j: int|
                        0 <= j < self.cards@.len() ==> (#[trigger] self.cards@[j]).identity() != (
                            suit,
                            rank,
                        )
                },
            },
    {
        let ghost ids = identities(self.cards@);
        proof {
            ids.index_of_first_ensures((suit, rank));
            assert forall|j: int| 0 <= j < self.cards@.len() implies ids[j] == (
            #[trigger] self.cards@[j]).identity() by {}
        }
        let mut i: usize = 0;
        while i < self.cards.len()
            invariant
                i <= self.cards.len(),
                ids == identities(self.cards@),
                forall|j: int| 0 <= j < i ==> ids[j] != (suit, rank),
            decreases self.cards.len() - i,
        {
            let card = &self.cards[i];
            if card.rank == rank && card.suit == suit {
                assert(ids[i as int] == (suit, rank));
                return Some(i);
            }
            i += 1;
        }
        None
    }

    /// The position of the top card; 0 for an empty pile.
    pub fn top_card_index(&self) -> (r: usize)
        ensures
            r == if self.cards@.len() == 0 {
                0
            } else {
                self.cards@.len() - 1
            },
    {
        if self.cards.len() == 0 {
            0
        } else {
            self.cards.len() - 1
        }
    }

    /// The lowest card of the pile.
    pub fn bottom_card(&self) -> (r: Option<&Card>)
        ensures
            r == if self.cards@.len() == 0 {
                None
            } else {
                Some(&self.cards@[0])
            },
    {
        if self.cards.len() == 0 {
            None
        } else {
            Some(&self.cards[0])
        }
    }

    /// The highest card of the pile.
    pub fn top_card(&self) -> (r: Option<&Card>)
        ensures
            r == if self.cards@.len() == 0 {
                None
            } else {
                Some(&self.cards@.last())
            },
    {
        if self.cards.len() == 0 {
            None
        } else {
            Some(&self.cards[self.cards.len() - 1])
        }
    }

    /// Turns the top card face up. An empty pile stays as it is.
    pub fn expose_top_card(&mut self)
        ensures
            final(self).stack_id == old(self).stack_id,
            final(self).stack_type == old(self).stack_type,
            final(self).cards@ == exposed(old(self).cards@),
    {
        if self.cards.len() > 0 {
            let last_index = self.cards.len() - 1;
            let card = self.cards[last_index];
            self.cards.set(last_index, Card { suit: card.suit, rank: card.rank, face_up: true });
        }
    }

    /// Turns the top card over. An empty pile stays as it is.
    pub fn flip_top_card(&mut self)
        ensures
            final(self).stack_id == old(self).stack_id,
            final(self).stack_type == old(self).stack_type,
            final(self).cards@ == flipped(old(self).cards@),
    {
        if self.cards.len() > 0 {
            let index = self.cards.len() - 1;
            let card = self.cards[index];
            self.cards.set(
                index,
                Card { suit: card.suit, rank: card.rank, face_up: !card.face_up },
            );
        }
    }

    /// The last position before `start_index` that a cursor can rest on,
    /// or the last of all if there is no `start_index`.
    #[verifier::loop_isolation(false)]
    pub fn previous_active_card(&self, start_index: Option<usize>) -> (r: Option<usize>)
        ensures
            r == previous_active(self.stack_type, self.cards@, start_index),
    {
        if self.cards.len() == 0 {
            return None;
        }
        let max_index = self.cards.len() - 1;
        let index: usize = match start_index {
            Some(start) => {
                if start == 0 {
                    return None;
                }
                if start - 1 < max_index {
                    start - 1
                } else {
                    max_index
                }
            },
            None => max_index,
        };
        match self.stack_type {
            StackType::Stock | StackType::Foundation | StackType::Waste => {
                if start_index.is_none() {
                    Some(max_index)
                } else {
                    None
                }
            },
            _ => {
                let mut remaining: usize = index + 1;
                while remaining > 0
                    invariant
                        remaining <= index + 1,
                        index < self.cards@.len(),
                        last_face_up(self.cards@, index as int) == last_face_up(
                            self.cards@,
                            remaining - 1,
                        ),
                    decreases remaining,
                {
                    let active_index = remaining - 1;
                    if self.cards[active_index].face_up {
                        return Some(active_index);
                    }
                    remaining = active_index;
                }
                None
            },
        }
    }

    /// The next position after `start_index` from which cards can be picked
    /// up, or the first of all if there is no `start_index`.
    #[verifier::loop_isolation(false)]
    pub fn next_active_card(&self, start_index: Option<usize>) -> (r: Option<usize>)
        ensures
            r == next_active(self.stack_type, self.cards@, start_index),
    {
        if self.cards.len() == 0 || self.stack_type == StackType::Stock {
            return None;
        }
        let max_index = self.cards.len() - 1;
        let index: usize = match start_index {
            Some(start) => {
                if start >= max_index {
                    return None;
                }
                start + 1
            },
            None => 0,
        };
        match self.stack_type {
            StackType::Stock | StackType::Foundation | StackType::Waste => Some(max_index),
            _ => {
                let mut active_index: usize = index;
                while active_index <= max_index
                    invariant
                        index <= active_index <= max_index + 1,
                        max_index + 1 == self.cards@.len(),
                        first_face_up(self.cards@, index as int) == first_face_up(
                            self.cards@,
                            active_index as int,
                        ),
                    decreases max_index + 1 - active_index,
                {
                    if self.cards[active_index].face_up {
                        return Some(active_index);
                    }
                    active_index += 1;
                }
                None
            },
        }
    }

    /// Whether the card at `index` is the lift point of the pile: the
    /// lowest face-up card in it.
    #[verifier::loop_isolation(false)]
    pub fn is_top_face_up_card(&self, index: usize) -> (r: bool)
        ensures
            r == is_lift_point(self.cards@, index as int),
    {
        let mut search_index: usize = 0;
        while search_index < self.cards.len()
            invariant
                search_index <= self.cards@.len(),
                first_face_up(self.cards@, 0) == first_face_up(self.cards@, search_index as int),
            decreases self.cards@.len() - search_index,
        {
            if self.cards[search_index].face_up {
                return search_index == index;
            }
            search_index += 1;
        }
        false
    }

    /// Whether this pile, taken as a foundation, accepts the card.
    pub fn foundation_can_accept_card(&self, card: &Card) -> (r: bool)
        ensures
            r == foundation_accepts(self.stack_id, self.cards@, *card),
    {
        match self.top_card() {
            None => {
                if card.rank == Rank::Ace {
                    match self.stack_id {
                        StackId::Foundation1 => card.suit == Suit::Spade,
                        StackId::Foundation2 => card.suit == Suit::Club,
                        StackId::Foundation3 => card.suit == Suit::Heart,
                        StackId::Foundation4 => card.suit == Suit::Diamond,
                        _ => false,
                    }
                } else {
                    false
                }
            },
            Some(top_card) => {
                if card.suit == top_card.suit {
                    top_card.is_one_below(card)
                } else {
                    false
                }
            },
        }
    }

    /// Whether this pile, taken as a foundation, accepts the cards of
    /// `hand`: a single card that it accepts.
    pub fn foundation_can_accept_hand(&self, hand: &Stack) -> (r: bool)
        ensures
            r == (hand.cards@.len() == 1 && foundation_accepts(
                self.stack_id,
                self.cards@,
                hand.cards@[0],
            )),
    {
        if hand.cards.len() > 1 {
            false
        } else {
            match hand.top_card() {
                Some(card) => self.foundation_can_accept_card(card),
                None => false,
            }
        }
    }

    /// Whether this pile, taken as a tableau, accepts the card.
    pub fn tableau_can_accept_card(&self, card: &Card) -> (r: bool)
        ensures
            r == tableau_accepts(self.cards@, *card),
    {
        match self.top_card() {
            Some(top_card) => {
                if !top_card.is_same_color(card) {
                    card.is_one_below(top_card)
                } else {
                    false
                }
            },
            None => card.rank == Rank::King,
        }
    }

    /// Whether this pile, taken as a tableau, accepts the cards of `hand`:
    /// a run whose lowest card it accepts.
    pub fn tableau_can_accept_hand(&self, hand: &Stack) -> (r: bool)
        ensures
            r == (hand.cards@.len() > 0 && tableau_accepts(self.cards@, hand.cards@[0])),
    {
        match hand.bottom_card() {
            Some(card) => self.tableau_can_accept_card(card),
            None => false,
        }
    }

    /// Whether the cards of `hand` can be put on this pile.
    pub fn can_play(&self, hand: &Stack) -> (r: bool)
        ensures
            r == accepts_hand(self.stack_type, self.stack_id, self.cards@, hand.cards@),
    {
        match self.stack_type {
            StackType::Foundation => self.foundation_can_accept_hand(hand),
            StackType::Tableau => self.tableau_can_accept_hand(hand),
            _ => false,
        }
    }

    /// Whether a run of `moving_cards_count` cards whose lowest card is
    /// `card` can be put on this pile.
    pub fn can_play_card(&self, card: &Card, moving_cards_count: usize) -> (r: bool)
        ensures
            r == accepts_run(
                self.stack_type,
                self.stack_id,
                self.cards@,
                *card,
                moving_cards_count as nat,
            ),
    {
        match self.stack_type {
            StackType::Foundation => {
                moving_cards_count == 1 && self.foundation_can_accept_card(card)
            },
            StackType::Tableau => self.tableau_can_accept_card(card),
            _ => false,
        }
    }
}

/// The pile with its top card face up.
pub open spec fn exposed(cards: Seq<Card>) -> Seq<Card> {
    if cards.len() == 0 {
        cards
    } else {
        cards.update(cards.len() - 1, cards.last().turned(true))
    }
}

/// The pile with its top card turned over.
pub open spec fn flipped(cards: Seq<Card>) -> Seq<Card> {
    if cards.len() == 0 {
        cards
    } else {
        cards.update(cards.len() - 1, cards.last().turned(!cards.last().face_up))
    }
}

} // verus!
