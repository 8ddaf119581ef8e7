//! The deck: fifty-two cards in a fixed order, and the shuffle that a seed
//! stands for.

use crate::card::{Card, Rank, Suit};
use crate::stack::identities;
use rand::seq::SliceRandom;
use rand::SeedableRng;
use vstd::prelude::*;

verus! {

/// The number of cards in a deck.
pub const DECK_SIZE: usize = 52;

/// The suits in the order in which a new deck holds them.
pub open spec fn suit_at(i: int) -> Suit {
    if i == 0 {
        Suit::Diamond
    } else if i == 1 {
        Suit::Club
    } else if i == 2 {
        Suit::Heart
    } else {
        Suit::Spade
    }
}

/// The ranks in the order in which a new deck holds them: ace to king.
pub open spec fn rank_at(i: int) -> Rank {
    if i == 0 {
        Rank::Ace
    } else if i == 1 {
        Rank::Two
    } else if i == 2 {
        Rank::Three
    } else if i == 3 {
        Rank::Four
    } else if i == 4 {
        Rank::Five
    } else if i == 5 {
        Rank::Six
    } else if i == 6 {
        Rank::Seven
    } else if i == 7 {
        Rank::Eight
    } else if i == 8 {
        Rank::Nine
    } else if i == 9 {
        Rank::Ten
    } else if i == 10 {
        Rank::Jack
    } else if i == 11 {
        Rank::Queen
    } else {
        Rank::King
    }
}

/// The card at a position of a new deck, face down.
pub open spec fn fresh_card(i: int) -> Card {
    Card { suit: suit_at(i / 13), rank: rank_at(i % 13), face_up: false }
}

/// A new deck before it is shuffled: suit by suit, each from ace to king,
/// every card face down.
pub open spec fn fresh_deck() -> Seq<Card> {
    Seq::new(DECK_SIZE as nat, |i: int| fresh_card(i))
}

/// The order in which `rand::seq::SliceRandom::shuffle` leaves `cards` when
/// it draws from the `rand_pcg::Pcg32` that is seeded with `seed`.
pub uninterp spec fn shuffled(seed: u64, cards: Seq<Card>) -> Seq<Card>;

/// The deck that a seed stands for.
pub open spec fn deck_of(seed: u64) -> Seq<Card> {
    shuffled(seed, fresh_deck())
}

/// Shuffles `cards` in place with `rand::seq::SliceRandom::shuffle`, drawing
/// from a `rand_pcg::Pcg32` that `rand::SeedableRng::seed_from_u64` made from
/// `seed`.
///
/// Trusted: the generator is seeded from `seed` alone and the shuffle draws
/// from nothing else, so the order that comes out is a function of `seed`
/// and of the cards that went in; and the shuffle only swaps cards, so the
/// same cards come out.
#[verifier::external_body]
fn shuffle(seed: u64, cards: &mut Vec<Card>)
    ensures
        final(cards)@ == shuffled(seed, old(cards)@),
        final(cards)@.to_multiset() == old(cards)@.to_multiset(),
{
    let mut rng = rand_pcg::Pcg32::seed_from_u64(seed);
    cards.shuffle(&mut rng);
}

/// The suit at a position of the order of a new deck.
fn suit_for(i: usize) -> (s: Suit)
    ensures
        s == suit_at(i as int),
{
    if i == 0 {
        Suit::Diamond
    } else if i == 1 {
        Suit::Club
    } else if i == 2 {
        Suit::Heart
    } else {
        Suit::Spade
    }
}

/// The rank at a position of the order of a new deck.
fn rank_for(i: usize) -> (r: Rank)
    ensures
        r == rank_at(i as int),
{
    if i == 0 {
        Rank::Ace
    } else if i == 1 {
        Rank::Two
    } else if i == 2 {
        Rank::Three
    } else if i == 3 {
        Rank::Four
    } else if i == 4 {
        Rank::Five
    } else if i == 5 {
        Rank::Six
    } else if i == 6 {
        Rank::Seven
    } else if i == 7 {
        Rank::Eight
    } else if i == 8 {
        Rank::Nine
    } else if i == 9 {
        Rank::Ten
    } else if i == 10 {
        Rank::Jack
    } else if i == 11 {
        Rank::Queen
    } else {
        Rank::King
    }
}

/// The deck that `seed` stands for: the fifty-two cards of a new deck, face
/// down, in the order in which the shuffle for `seed` leaves them.
pub fn make_deck(seed: u64) -> (deck: Vec<Card>)
    ensures
        deck@ == deck_of(seed),
        deck@.len() == DECK_SIZE,
        identities(deck@).to_multiset() == identities(fresh_deck()).to_multiset(),
        forall|i: int| 0 <= i < deck@.len() ==> !(#[trigger] deck@[i]).face_up,
{
    let mut cards: Vec<Card> = Vec::new();
    let mut i: usize = 0;
    while i < DECK_SIZE
        invariant
            i <= DECK_SIZE,
            cards@ == Seq::new(i as nat, |k: int| fresh_card(k)),
        decreases DECK_SIZE - i,
    {
        cards.push(Card { suit: suit_for(i / 13), rank: rank_for(i % 13), face_up: false });
        i += 1;
        assert(cards@ =~= Seq::new(i as nat, |k: int| fresh_card(k)));
    }
    assert(cards@ == fresh_deck());
    shuffle(seed, &mut cards);
    proof {
        lemma_same_cards(cards@, fresh_deck());
        lemma_same_cards_same_identities(cards@, fresh_deck());
        assert forall|i: int| 0 <= i < cards@.len() implies !(#[trigger] cards@[i]).face_up by {
            cards@.to_multiset_ensures();
            fresh_deck().to_multiset_ensures();
            assert(cards@.to_multiset().contains(cards@[i]));
            assert(fresh_deck().contains(cards@[i]));
        }
    }
    cards
}

/// Two sequences that hold the same cards have the same length.
pub proof fn lemma_same_cards(a: Seq<Card>, b: Seq<Card>)
    requires
        a.to_multiset() == b.to_multiset(),
    ensures
        a.len() == b.len(),
{
    a.to_multiset_ensures();
    b.to_multiset_ensures();
}

/// Two sequences that hold the same cards hold the same suits and ranks:
/// a rearrangement neither adds a card nor loses one.
pub proof fn lemma_same_cards_same_identities(a: Seq<Card>, b: Seq<Card>)
    requires
        a.to_multiset() == b.to_multiset(),
    ensures
        identities(a).to_multiset() == identities(b).to_multiset(),
    decreases a.len(),
{
    broadcast use vstd::seq_lib::group_to_multiset_ensures;

    lemma_same_cards(a, b);
    if a.len() == 0 {
        assert(identities(a) =~= identities(b));
    } else {
        let x = a.last();
        let a1 = a.drop_last();
        assert(a =~= a1.push(x));
        assert(a.to_multiset().contains(x));
        assert(b.contains(x));
        let j = choose|j: int| 0 <= j < b.len() && b[j] == x;
        let b1 = b.remove(j);
        assert(a1 =~= a.remove(a.len() - 1));
        assert(a1.to_multiset() =~= a.to_multiset().remove(x));
        assert(b1.to_multiset() =~= b.to_multiset().remove(x));
        lemma_same_cards_same_identities(a1, b1);
        let ia = identities(a);
        let ib = identities(b);
        assert(identities(a1) =~= ia.remove(a.len() - 1));
        assert(identities(b1) =~= ib.remove(j));
        assert(ia[a.len() - 1] == x.identity());
        assert(ib[j] == x.identity());
        assert(ia.remove(a.len() - 1).to_multiset() =~= ia.to_multiset().remove(x.identity()));
        assert(ib.remove(j).to_multiset() =~= ib.to_multiset().remove(x.identity()));
        assert(ia.to_multiset().contains(x.identity()));
        assert(ib.to_multiset().contains(x.identity()));
        assert(ia.to_multiset() =~= ia.to_multiset().remove(x.identity()).insert(x.identity()));
        assert(ib.to_multiset() =~= ib.to_multiset().remove(x.identity()).insert(x.identity()));
    }
}

} // verus!
