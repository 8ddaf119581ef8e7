//! What holds of every table and of every line of play.

use crate::card::{Card, Rank, Suit};
use crate::deck::{deck_of, fresh_card, fresh_deck};
use crate::ids::{lemma_at_ord, lemma_ring, Source, StackId};
use crate::play::Play;
use crate::stack::{exposed, face_up_on_top, flipped, home_suit, identities};
use crate::solver::{NodeView, SolverView};
use crate::table::{dealt_cards, dealt_from, dealt_to, turned_all, TableView};
use vstd::multiset::Multiset;
use vstd::prelude::*;

verus! {

/// The cards of a deck, whichever side is up: each suit and rank once.
pub open spec fn full_deck() -> Multiset<(Suit, Rank)> {
    identities(fresh_deck()).to_multiset()
}

/// The cards of a pile, whichever side is up.
pub open spec fn cards_of(pile: Seq<Card>) -> Multiset<(Suit, Rank)> {
    identities(pile).to_multiset()
}

impl TableView {
    /// The cards of the first `n` piles, whichever side is up.
    pub open spec fn cards_in_first(self, n: int) -> Multiset<(Suit, Rank)>
        decreases n,
    {
        if n <= 0 {
            Multiset::empty()
        } else {
            self.cards_in_first(n - 1).add(cards_of(self.piles[n - 1]))
        }
    }

    /// All the cards of the table, the hand included, whichever side is
    /// up.
    pub open spec fn all_cards(self) -> Multiset<(Suit, Rank)> {
        self.cards_in_first(14)
    }

    /// The table after a line of play.
    pub open spec fn played(self, line: Seq<Play>) -> TableView
        decreases line.len(),
    {
        if line.len() == 0 {
            self
        } else {
            self.played(line.drop_last()).applied(line.last())
        }
    }

    /// Every play of the line is allowed on the table that the plays
    /// before it lead to.
    pub open spec fn legal_line(self, line: Seq<Play>) -> bool
        decreases line.len(),
    {
        line.len() == 0 || (self.legal_line(line.drop_last()) && self.played(
            line.drop_last(),
        ).allows(line.last()))
    }

    /// The table when the stock has been dealt out to the waste.
    pub open spec fn dealt_out(self) -> TableView
        decreases self.pile(StackId::Stock).len(),
    {
        if self.pile(StackId::Stock).len() == 0 || !self.wf() {
            self
        } else {
            self.dealt().dealt_out()
        }
    }
}

/// Replacing a pile changes nothing in any other pile.
pub proof fn lemma_with_pile(v: TableView, id: StackId, cards: Seq<Card>, other: StackId)
    requires
        v.wf(),
    ensures
        v.with_pile(id, cards).wf(),
        v.with_pile(id, cards).pile(other) == if other == id {
            cards
        } else {
            v.pile(other)
        },
{
    lemma_ring(id);
    lemma_ring(other);
}

/// Replacing a pile takes its cards out of the table and puts the new
/// cards in: the new table with the old pile holds what the old table with
/// the new pile holds.
pub proof fn lemma_cards_with_pile(v: TableView, id: StackId, cards: Seq<Card>, n: int)
    requires
        v.wf(),
        0 <= n <= 14,
    ensures
        n <= id.ord() ==> v.with_pile(id, cards).cards_in_first(n) == v.cards_in_first(n),
        n > id.ord() ==> v.with_pile(id, cards).cards_in_first(n).add(cards_of(v.pile(id)))
            == v.cards_in_first(n).add(cards_of(cards)),
    decreases n,
{
    broadcast use vstd::multiset::group_multiset_axioms;

    let w = v.with_pile(id, cards);
    let old_cards = cards_of(v.pile(id));
    let new_cards = cards_of(cards);
    if n > 0 {
        lemma_cards_with_pile(v, id, cards, n - 1);
        if n - 1 == id.ord() {
            assert(w.piles[n - 1] == cards);
            assert(w.cards_in_first(n).add(old_cards) =~= v.cards_in_first(n).add(new_cards));
        } else {
            assert(w.piles[n - 1] == v.piles[n - 1]);
            if n > id.ord() {
                let here = cards_of(v.piles[n - 1]);
                assert(w.cards_in_first(n).add(old_cards) =~= w.cards_in_first(n - 1).add(
                    old_cards,
                ).add(here));
                assert(v.cards_in_first(n).add(new_cards) =~= v.cards_in_first(n - 1).add(
                    new_cards,
                ).add(here));
            }
        }
    }
}

/// A table in which two piles were replaced by piles that hold, between
/// them, the cards that the two held before, holds the cards it held.
pub proof fn lemma_cards_moved(
    v: TableView,
    a: StackId,
    new_a: Seq<Card>,
    b: StackId,
    new_b: Seq<Card>,
)
    requires
        v.wf(),
        a != b,
        cards_of(new_a).add(cards_of(new_b)) == cards_of(v.pile(a)).add(cards_of(v.pile(b))),
    ensures
        v.with_pile(a, new_a).with_pile(b, new_b).all_cards() == v.all_cards(),
{
    let w = v.with_pile(a, new_a);
    let x = w.with_pile(b, new_b);
    lemma_with_pile(v, a, new_a, b);
    lemma_cards_with_pile(v, a, new_a, 14);
    lemma_cards_with_pile(w, b, new_b, 14);
    assert(x.all_cards().add(cards_of(v.pile(b))).add(cards_of(v.pile(a))) =~= v.all_cards().add(
        cards_of(new_a),
    ).add(cards_of(new_b)));
    assert(v.all_cards().add(cards_of(new_a)).add(cards_of(new_b)) =~= v.all_cards().add(
        cards_of(new_a).add(cards_of(new_b)),
    ));
    assert(x.all_cards().add(cards_of(v.pile(b))).add(cards_of(v.pile(a))) =~= x.all_cards().add(
        cards_of(v.pile(a)).add(cards_of(v.pile(b))),
    ));
    let moved = cards_of(v.pile(a)).add(cards_of(v.pile(b)));
    assert forall|c: (Suit, Rank)| x.all_cards().count(c) == v.all_cards().count(c) by {
        assert(x.all_cards().add(moved).count(c) == v.all_cards().add(moved).count(c));
    }
    assert(x.all_cards() =~= v.all_cards());
}

/// A table in which one pile was replaced by a pile that holds the same
/// cards holds the cards it held.
pub proof fn lemma_cards_kept(v: TableView, a: StackId, new_a: Seq<Card>)
    requires
        v.wf(),
        cards_of(new_a) == cards_of(v.pile(a)),
    ensures
        v.with_pile(a, new_a).all_cards() == v.all_cards(),
{
    let w = v.with_pile(a, new_a);
    lemma_cards_with_pile(v, a, new_a, 14);
    let kept = cards_of(new_a);
    assert forall|c: (Suit, Rank)| w.all_cards().count(c) == v.all_cards().count(c) by {
        assert(w.all_cards().add(kept).count(c) == v.all_cards().add(kept).count(c));
    }
    assert(w.all_cards() =~= v.all_cards());
}

/// Turning cards over, every one or the top one, and turning the pile
/// upside down do not change which cards it holds.
pub proof fn lemma_same_cards_turned(pile: Seq<Card>, face_up: bool)
    ensures
        identities(turned_all(pile, face_up)) == identities(pile),
        identities(exposed(pile)) == identities(pile),
        cards_of(pile.reverse()) == cards_of(pile),
        identities(pile.reverse()) == identities(pile).reverse(),
{
    assert(identities(turned_all(pile, face_up)) =~= identities(pile));
    assert(identities(exposed(pile)) =~= identities(pile));
    assert(identities(pile.reverse()) =~= identities(pile).reverse());
    identities(pile).lemma_reverse_to_multiset();
}

/// A pile cut in two holds the cards of the two parts.
pub proof fn lemma_cards_split(pile: Seq<Card>, at: int)
    requires
        0 <= at <= pile.len(),
    ensures
        cards_of(pile.subrange(0, at)).add(cards_of(pile.subrange(at, pile.len() as int)))
            == cards_of(pile),
{
    let low = pile.subrange(0, at);
    let high = pile.subrange(at, pile.len() as int);
    assert(identities(pile) =~= identities(low) + identities(high));
    vstd::seq_lib::lemma_multiset_commutative(identities(low), identities(high));
}

/// Two piles laid on each other hold the cards of both.
pub proof fn lemma_cards_joined(low: Seq<Card>, high: Seq<Card>)
    ensures
        cards_of(low + high) == cards_of(low).add(cards_of(high)),
{
    assert(identities(low + high) =~= identities(low) + identities(high));
    vstd::seq_lib::lemma_multiset_commutative(identities(low), identities(high));
}

/// A deal, and a recycle, neither adds a card to the table nor loses one.
pub proof fn law_deal_conserves_cards(v: TableView)
    requires
        v.wf(),
    ensures
        v.dealt().wf(),
        v.dealt().all_cards() == v.all_cards(),
        v.dealt().pile(StackId::Hand) == v.pile(StackId::Hand),
{
    let stock = v.pile(StackId::Stock);
    let waste = v.pile(StackId::Waste);
    lemma_with_pile(v, StackId::Stock, stock, StackId::Hand);
    if stock.len() == 0 {
        let new_stock = turned_all(waste, false).reverse();
        lemma_same_cards_turned(waste, false);
        lemma_same_cards_turned(turned_all(waste, false), false);
        assert(cards_of(Seq::<Card>::empty()) =~= Multiset::empty()) by {
            assert(identities(Seq::<Card>::empty()) =~= Seq::empty());
            identities(Seq::<Card>::empty()).to_multiset_ensures();
        }
        assert(cards_of(stock) =~= Multiset::empty()) by {
            assert(stock =~= Seq::<Card>::empty());
        }
        assert(cards_of(new_stock).add(cards_of(Seq::<Card>::empty())) =~= cards_of(stock).add(
            cards_of(waste),
        ));
        lemma_cards_moved(v, StackId::Stock, new_stock, StackId::Waste, Seq::empty());
        lemma_with_pile(v, StackId::Stock, new_stock, StackId::Hand);
        lemma_with_pile(
            v.with_pile(StackId::Stock, new_stock),
            StackId::Waste,
            Seq::empty(),
            StackId::Hand,
        );
    } else {
        let keep: int = if stock.len() < 3 {
            0
        } else {
            stock.len() - 3
        };
        let low = stock.subrange(0, keep);
        let high = stock.subrange(keep, stock.len() as int);
        let new_waste = waste + turned_all(high, true).reverse();
        lemma_cards_split(stock, keep);
        lemma_same_cards_turned(high, true);
        lemma_same_cards_turned(turned_all(high, true), true);
        lemma_cards_joined(waste, turned_all(high, true).reverse());
        assert(cards_of(low).add(cards_of(new_waste)) =~= cards_of(stock).add(cards_of(waste)));
        lemma_cards_moved(v, StackId::Stock, low, StackId::Waste, new_waste);
        lemma_with_pile(v, StackId::Stock, low, StackId::Hand);
        lemma_with_pile(v.with_pile(StackId::Stock, low), StackId::Waste, new_waste, StackId::Hand);
    }
}

/// Which cards a table holds depends on its piles alone, not on the
/// cursors.
pub proof fn lemma_cards_are_of_the_piles(a: TableView, b: TableView, n: int)
    requires
        a.piles == b.piles,
    ensures
        a.cards_in_first(n) == b.cards_in_first(n),
    decreases n,
{
    if n > 0 {
        lemma_cards_are_of_the_piles(a, b, n - 1);
    }
}

/// An empty pile holds no card.
pub proof fn lemma_no_cards()
    ensures
        cards_of(Seq::<Card>::empty()) == Multiset::<(Suit, Rank)>::empty(),
{
    assert(identities(Seq::<Card>::empty()) =~= Seq::empty());
    identities(Seq::<Card>::empty()).to_multiset_ensures();
    assert(cards_of(Seq::<Card>::empty()) =~= Multiset::empty());
}

/// Turning the top card of a pile face up neither adds a card to the table
/// nor loses one.
pub proof fn law_expose_conserves_cards(v: TableView, id: StackId)
    requires
        v.wf(),
    ensures
        v.top_exposed(id).wf(),
        v.top_exposed(id).all_cards() == v.all_cards(),
{
    lemma_ring(id);
    lemma_same_cards_turned(v.pile(id), true);
    lemma_cards_kept(v, id, exposed(v.pile(id)));
}

/// Picking cards up neither adds a card to the table nor loses one: what
/// the hand held stays in the hand.
pub proof fn law_take_conserves_cards(v: TableView, id: StackId, index: int)
    requires
        v.wf(),
    ensures
        v.taken(id, index).wf(),
        v.taken(id, index).all_cards() == v.all_cards(),
{
    broadcast use vstd::multiset::group_multiset_axioms;

    lemma_ring(id);
    let pile = v.pile(id);
    if 0 <= index < pile.len() {
        let low = pile.subrange(0, index);
        let high = pile.subrange(index, pile.len() as int);
        let rest = v.with_pile(id, low);
        lemma_with_pile(v, id, low, StackId::Hand);
        if id == StackId::Hand {
            assert(low + high =~= pile);
            assert(v.taken(id, index).piles =~= v.piles);
            lemma_cards_are_of_the_piles(v.taken(id, index), v, 14);
        } else {
            let hand = v.pile(StackId::Hand);
            lemma_cards_split(pile, index);
            lemma_cards_joined(hand, high);
            assert(cards_of(low).add(cards_of(hand + high)) =~= cards_of(pile).add(cards_of(hand)));
            lemma_cards_moved(v, id, low, StackId::Hand, hand + high);
        }
    }
}

/// Taking the top card of a pile into the hand neither adds a card to the
/// table nor loses one.
pub proof fn law_take_top_conserves_cards(v: TableView, id: StackId)
    requires
        v.wf(),
    ensures
        v.top_taken(id).wf(),
        v.top_taken(id).all_cards() == v.all_cards(),
{
    broadcast use vstd::multiset::group_multiset_axioms;

    lemma_ring(id);
    let pile = v.pile(id);
    if pile.len() > 0 {
        let low = pile.drop_last();
        let top = pile.last().turned(true);
        let rest = v.with_pile(id, low);
        lemma_with_pile(v, id, low, StackId::Hand);
        lemma_cards_split(pile, pile.len() - 1);
        assert(low =~= pile.subrange(0, pile.len() - 1));
        assert(identities(seq![top]) =~= identities(pile.subrange(pile.len() - 1, pile.len() as int)));
        if id == StackId::Hand {
            lemma_cards_joined(low, seq![top]);
            assert(low.push(top) =~= low + seq![top]);
            lemma_with_pile(rest, StackId::Hand, low.push(top), StackId::Hand);
            assert(v.top_taken(id).piles =~= v.piles.update(13, low.push(top)));
            assert(v.top_taken(id) == v.with_pile(StackId::Hand, low.push(top)));
            lemma_cards_kept(v, StackId::Hand, low.push(top));
        } else {
            let hand = v.pile(StackId::Hand);
            lemma_cards_joined(hand, seq![top]);
            assert(hand.push(top) =~= hand + seq![top]);
            assert(cards_of(low).add(cards_of(hand.push(top))) =~= cards_of(pile).add(
                cards_of(hand),
            ));
            lemma_cards_moved(v, id, low, StackId::Hand, hand.push(top));
        }
    }
}

/// Putting the hand down neither adds a card to the table nor loses one.
pub proof fn law_put_conserves_cards(v: TableView, from: StackId, onto: StackId)
    requires
        v.wf(),
    ensures
        v.put(from, onto).wf(),
        v.put(from, onto).all_cards() == v.all_cards(),
{
    broadcast use vstd::multiset::group_multiset_axioms;

    lemma_ring(from);
    lemma_ring(onto);
    lemma_no_cards();
    let none = Seq::<Card>::empty();
    let hand = v.pile(StackId::Hand);
    let emptied = v.with_pile(StackId::Hand, none);
    lemma_with_pile(v, StackId::Hand, none, onto);
    lemma_with_pile(v, StackId::Hand, none, StackId::Hand);
    let landed = emptied.with_pile(onto, emptied.pile(onto) + hand);
    if onto == StackId::Hand {
        assert(none + hand =~= hand);
        assert(landed.piles =~= v.piles);
        lemma_cards_are_of_the_piles(landed, v, 14);
    } else {
        lemma_cards_joined(v.pile(onto), hand);
        assert(cards_of(none).add(cards_of(v.pile(onto) + hand)) =~= cards_of(hand).add(
            cards_of(v.pile(onto)),
        ));
        lemma_cards_moved(v, StackId::Hand, none, onto, v.pile(onto) + hand);
    }
    lemma_with_pile(emptied, onto, emptied.pile(onto) + hand, from);
    law_expose_conserves_cards(landed, from);
}

/// Every card of the pile is face up.
pub open spec fn all_face_up(pile: Seq<Card>) -> bool {
    forall|i: int| 0 <= i < pile.len() ==> (#[trigger] pile[i]).face_up
}

/// The pile is built up as a foundation is: the ace at the bottom, each
/// card one above the card below it, all of the suit of that foundation.
pub open spec fn in_sequence(id: StackId, pile: Seq<Card>) -> bool {
    forall|i: int|
        0 <= i < pile.len() ==> (#[trigger] pile[i]).rank.spec_number() == i + 1 && home_suit(id)
            == Some(pile[i].suit)
}

/// The face-up cards of the pile are exactly the cards from position `k`
/// up to the top.
pub open spec fn face_up_from(pile: Seq<Card>, k: int) -> bool {
    0 <= k <= pile.len() && forall|i: int|
        0 <= i < pile.len() ==> ((#[trigger] pile[i]).face_up <==> i >= k)
}

/// The face-up cards of the pile are exactly the cards from some position
/// up to the top, a position within the pile if the pile holds cards.
pub open spec fn face_up_is_a_top_part(pile: Seq<Card>) -> bool {
    exists|k: int| #[trigger] face_up_from(pile, k) && (pile.len() > 0 ==> k < pile.len())
}

/// The face-up cards of the pile are the cards from some position up to
/// the top, and a pile that holds cards shows its top card.
pub open spec fn shows_its_top(pile: Seq<Card>) -> bool {
    face_up_on_top(pile) && (pile.len() > 0 ==> pile.last().face_up)
}

/// The rank of the top card of a pile, and 0 for an empty pile.
pub open spec fn top_rank(pile: Seq<Card>) -> int {
    if pile.len() == 0 {
        0
    } else {
        pile.last().rank.spec_number()
    }
}

/// The first pile is the lower part of the second.
pub open spec fn is_base_of(low: Seq<Card>, all: Seq<Card>) -> bool {
    low.len() <= all.len() && all.subrange(0, low.len() as int) == low
}

impl TableView {
    /// The table is in order, as every table is between two plays of a
    /// game: the hand is empty; waste and foundations show their cards; each
    /// foundation is built up in sequence; and each tableau shows its top
    /// card, its face-up cards being the cards from some position up to the
    /// top.
    pub open spec fn tidy(self) -> bool {
        &&& self.wf()
        &&& self.pile(StackId::Hand).len() == 0
        &&& all_face_up(self.pile(StackId::Waste))
        &&& forall|i: int|
            2 <= i < 6 ==> all_face_up(#[trigger] self.piles[i]) && in_sequence(
                StackId::at(i),
                self.piles[i],
            )
        &&& self.tableaux_shown()
    }

    /// Every tableau shows its top card, and its face-up cards are the
    /// cards from some position up to the top.
    pub open spec fn tableaux_shown(self) -> bool {
        forall|i: int| 6 <= i < 13 ==> shows_its_top(#[trigger] self.piles[i])
    }

    /// The play puts no face-down card on a tableau.
    pub open spec fn moves_face_up(self, play: Play) -> bool {
        match play {
            Play::MoveCards(source, target) => target.spec_is_tableau() ==> self.pile(
                source.stack,
            )[source.index as int].face_up,
            _ => true,
        }
    }

    /// The play does not pick up from a foundation.
    pub open spec fn leaves_foundations(play: Play) -> bool {
        match play {
            Play::MoveCards(source, _) => !source.stack.spec_is_foundation(),
            _ => true,
        }
    }

    /// Every play of the line is allowed where it is played, and none
    /// picks up from a foundation.
    pub open spec fn steady_line(self, line: Seq<Play>) -> bool
        decreases line.len(),
    {
        line.len() == 0 || (self.steady_line(line.drop_last()) && self.played(
            line.drop_last(),
        ).allows(line.last()) && Self::leaves_foundations(line.last()))
    }
}

/// What a move that the rules allow does to each pile of a table whose
/// hand is empty: the pile it picks up from keeps the cards below the place
/// and shows its new top card, the pile it puts down on gets the cards
/// picked up, the hand is empty again, and no other pile changes.
pub proof fn lemma_move(v: TableView, source: Source, target: StackId, x: StackId)
    requires
        v.wf(),
        v.pile(StackId::Hand).len() == 0,
        v.allows(Play::MoveCards(source, target)),
    ensures
        v.applied(Play::MoveCards(source, target)).wf(),
        v.applied(Play::MoveCards(source, target)).pile(x) == ({
            let pile = v.pile(source.stack);
            let rest = pile.subrange(0, source.index as int);
            let run = pile.subrange(source.index as int, pile.len() as int);
            if x == StackId::Hand {
                Seq::<Card>::empty()
            } else if source.stack == target {
                if x == target {
                    exposed(pile)
                } else {
                    v.pile(x)
                }
            } else if x == source.stack {
                exposed(rest)
            } else if x == target {
                v.pile(target) + run
            } else {
                v.pile(x)
            }
        }),
{
    reveal(TableView::allows);
    let from = source.stack;
    let pile = v.pile(from);
    let rest = pile.subrange(0, source.index as int);
    let run = pile.subrange(source.index as int, pile.len() as int);
    lemma_ring(from);
    lemma_ring(target);
    lemma_ring(x);
    let v0 = v.with_pile(from, rest);
    let v1 = v0.with_pile(StackId::Hand, run);
    lemma_with_pile(v, from, rest, StackId::Hand);
    assert(v0.pile(StackId::Hand) + run =~= run);
    assert(v.taken(from, source.index as int) == v1);
    lemma_with_pile(v, from, rest, StackId::Hand);
    lemma_with_pile(v, from, rest, target);
    lemma_with_pile(v, from, rest, from);
    lemma_with_pile(v, from, rest, x);
    lemma_with_pile(v0, StackId::Hand, run, StackId::Hand);
    lemma_with_pile(v0, StackId::Hand, run, target);
    lemma_with_pile(v0, StackId::Hand, run, from);
    lemma_with_pile(v0, StackId::Hand, run, x);
    let emptied = v1.with_pile(StackId::Hand, Seq::empty());
    lemma_with_pile(v1, StackId::Hand, Seq::empty(), StackId::Hand);
    lemma_with_pile(v1, StackId::Hand, Seq::empty(), target);
    lemma_with_pile(v1, StackId::Hand, Seq::empty(), from);
    lemma_with_pile(v1, StackId::Hand, Seq::empty(), x);
    let v2 = emptied.with_pile(target, emptied.pile(target) + run);
    lemma_with_pile(emptied, target, emptied.pile(target) + run, StackId::Hand);
    lemma_with_pile(emptied, target, emptied.pile(target) + run, target);
    lemma_with_pile(emptied, target, emptied.pile(target) + run, from);
    lemma_with_pile(emptied, target, emptied.pile(target) + run, x);
    let v3 = v2.with_pile(from, exposed(v2.pile(from)));
    lemma_with_pile(v2, from, exposed(v2.pile(from)), x);
    assert(v.applied(Play::MoveCards(source, target)) == v3);
    if from == target {
        assert(rest + run =~= pile);
    }
}

/// No play that the rules allow adds a card to the table or loses one,
/// and each leaves the hand empty as it found it.
pub proof fn law_play_conserves_cards(v: TableView, play: Play)
    requires
        v.wf(),
        v.pile(StackId::Hand).len() == 0,
        v.allows(play),
    ensures
        v.applied(play).wf(),
        v.applied(play).pile(StackId::Hand).len() == 0,
        v.applied(play).all_cards() == v.all_cards(),
{
    match play {
        Play::MoveCards(source, target) => {
            lemma_move(v, source, target, StackId::Hand);
            law_take_conserves_cards(v, source.stack, source.index as int);
            law_put_conserves_cards(v.taken(source.stack, source.index as int), source.stack, target);
        },
        _ => {
            law_deal_conserves_cards(v);
        },
    }
}

/// Whatever play is applied, and wherever from, the table afterwards holds
/// the cards it held.
pub proof fn law_apply_conserves_cards(v: TableView, play: Play)
    requires
        v.wf(),
    ensures
        v.applied(play).wf(),
        v.applied(play).all_cards() == v.all_cards(),
{
    match play {
        Play::MoveCards(source, target) => {
            law_take_conserves_cards(v, source.stack, source.index as int);
            law_put_conserves_cards(v.taken(source.stack, source.index as int), source.stack, target);
        },
        Play::Setup => {},
        _ => {
            law_deal_conserves_cards(v);
        },
    }
}

/// Card conservation: along every line of play that the rules allow, from
/// a table whose hand is empty, the table holds the very cards it held at
/// the start.
pub proof fn law_line_conserves_cards(v: TableView, line: Seq<Play>)
    requires
        v.wf(),
        v.pile(StackId::Hand).len() == 0,
        v.legal_line(line),
    ensures
        v.played(line).wf(),
        v.played(line).pile(StackId::Hand).len() == 0,
        v.played(line).all_cards() == v.all_cards(),
    decreases line.len(),
{
    if line.len() > 0 {
        law_line_conserves_cards(v, line.drop_last());
        law_play_conserves_cards(v.played(line.drop_last()), line.last());
    }
}

/// A pile shows its top if and only if its face-up cards are exactly the
/// cards from some position up to the top, a position within the pile if
/// the pile holds cards.
pub proof fn lemma_shown_is_a_top_part(pile: Seq<Card>)
    ensures
        shows_its_top(pile) <==> face_up_is_a_top_part(pile),
{
    if shows_its_top(pile) {
        crate::play::lemma_first_face_up(pile, 0);
        let k = crate::stack::first_face_up(pile, 0);
        assert forall|i: int| 0 <= i < pile.len() implies ((#[trigger] pile[i]).face_up <==> i
            >= k) by {
            if i >= k && k < pile.len() {
                assert(pile[k].face_up);
            }
        }
        if pile.len() > 0 && k == pile.len() {
            assert(pile[pile.len() - 1].face_up);
        }
        assert(face_up_from(pile, k));
    }
    if exists|k: int| #[trigger] face_up_from(pile, k) && (pile.len() > 0 ==> k < pile.len()) {
        let k = choose|k: int|
            #[trigger] face_up_from(pile, k) && (pile.len() > 0 ==> k < pile.len());
        assert forall|a: int, b: int| 0 <= a <= b < pile.len() && pile[a].face_up implies pile[b].face_up by {
            assert(pile[a].face_up <==> a >= k);
            assert(pile[b].face_up <==> b >= k);
        }
        if pile.len() > 0 {
            assert(pile[pile.len() - 1].face_up <==> pile.len() - 1 >= k);
        }
    }
}

/// The lift-point invariant for one play: on a table whose hand is empty
/// and whose tableaux show their tops, a play that the rules allow and that
/// puts no face-down card on a tableau leaves every tableau showing its
/// top, its face-up cards being exactly the cards from some position up to
/// the top.
pub proof fn law_play_keeps_tableaux_shown(v: TableView, play: Play)
    requires
        v.wf(),
        v.pile(StackId::Hand).len() == 0,
        v.tableaux_shown(),
        v.allows(play),
        v.moves_face_up(play),
    ensures
        v.applied(play).tableaux_shown(),
        forall|i: int| 6 <= i < 13 ==> face_up_is_a_top_part(#[trigger] v.applied(play).piles[i]),
{
    reveal(TableView::allows);
    let w = v.applied(play);
    match play {
        Play::MoveCards(source, target) => {
            let from = source.stack;
            let pile = v.pile(from);
            let rest = pile.subrange(0, source.index as int);
            let run = pile.subrange(source.index as int, pile.len() as int);
            let card = pile[source.index as int];
            lemma_ring(from);
            lemma_ring(target);
            assert(run[0] == card);
            assert(target.spec_is_tableau() ==> all_face_up(run)) by {
                if target.spec_is_tableau() {
                    if from.spec_kind() is Tableau {
                        assert(shows_its_top(v.piles[from.ord()]));
                    }
                    assert forall|k: int| 0 <= k < run.len() implies (#[trigger] run[k]).face_up by {
                        assert(run[k] == pile[source.index + k]);
                    }
                }
            }
            assert forall|i: int| 6 <= i < 13 implies shows_its_top(#[trigger] w.piles[i]) by {
                let x = StackId::at(i);
                lemma_at_ord(i);
                lemma_move(v, source, target, x);
                assert(shows_its_top(v.piles[i]));
                if from == target {
                    if x == target {
                        assert forall|a: int, b: int|
                            0 <= a <= b < pile.len() && exposed(
                                pile,
                            )[a].face_up implies exposed(pile)[b].face_up by {
                            if b < pile.len() - 1 {
                                assert(pile[a].face_up);
                            }
                        }
                    }
                } else if x == from {
                    assert forall|a: int, b: int|
                        0 <= a <= b < rest.len() && exposed(rest)[a].face_up implies exposed(
                        rest,
                    )[b].face_up by {
                        if b < rest.len() - 1 {
                            assert(rest[a] == pile[a]);
                            assert(rest[b] == pile[b]);
                        }
                    }
                } else if x == target {
                    let onto = v.pile(target);
                    assert forall|a: int, b: int|
                        0 <= a <= b < (onto + run).len() && (onto + run)[a].face_up implies (onto
                            + run)[b].face_up by {
                        if b < onto.len() {
                            assert(onto[a].face_up ==> onto[b].face_up);
                        } else {
                            assert((onto + run)[b] == run[b - onto.len()]);
                        }
                    }
                    assert((onto + run)[(onto + run).len() - 1] == run[run.len() - 1]);
                }
            }
        },
        _ => {
            law_deal_conserves_cards(v);
            let stock = v.pile(StackId::Stock);
            let waste = v.pile(StackId::Waste);
            let new_stock = if stock.len() == 0 {
                turned_all(waste, false).reverse()
            } else {
                stock.subrange(
                    0,
                    if stock.len() < 3 {
                        0
                    } else {
                        stock.len() - 3
                    },
                )
            };
            let new_waste = w.pile(StackId::Waste);
            assert forall|i: int| 6 <= i < 13 implies shows_its_top(#[trigger] w.piles[i]) by {
                lemma_at_ord(i);
                lemma_with_pile(v, StackId::Stock, new_stock, StackId::at(i));
                lemma_with_pile(
                    v.with_pile(StackId::Stock, new_stock),
                    StackId::Waste,
                    new_waste,
                    StackId::at(i),
                );
                assert(w.piles[i] == v.piles[i]);
            }
        },
    }
    assert forall|i: int| 6 <= i < 13 implies face_up_is_a_top_part(#[trigger] w.piles[i]) by {
        assert(shows_its_top(w.piles[i]));
        lemma_shown_is_a_top_part(w.piles[i]);
    }
}

/// A play that the rules allow leaves a table in order as it found it: in
/// particular, every tableau goes on showing its top, its face-up cards
/// being the cards from some position up to the top.
#[verifier::rlimit(40)]
pub proof fn law_play_keeps_order(v: TableView, play: Play)
    requires
        v.tidy(),
        v.allows(play),
    ensures
        v.applied(play).tidy(),
{
    reveal(TableView::allows);
    let w = v.applied(play);
    assert(v.moves_face_up(play)) by {
        match play {
            Play::MoveCards(source, target) => {
                let from = source.stack;
                lemma_ring(from);
                if from.spec_kind() is Foundation {
                    assert(all_face_up(v.piles[from.ord()]));
                }
            },
            _ => {},
        }
    }
    law_play_keeps_tableaux_shown(v, play);
    match play {
        Play::MoveCards(source, target) => {
            let from = source.stack;
            let pile = v.pile(from);
            let rest = pile.subrange(0, source.index as int);
            let run = pile.subrange(source.index as int, pile.len() as int);
            let card = pile[source.index as int];
            lemma_ring(from);
            lemma_ring(target);
            lemma_move(v, source, target, StackId::Hand);
            lemma_move(v, source, target, StackId::Waste);
            assert(all_face_up(run)) by {
                if from.spec_kind() is Tableau {
                    assert(shows_its_top(v.piles[from.ord()]));
                } else if from.spec_kind() is Foundation {
                    assert(all_face_up(v.piles[from.ord()]));
                }
            }
            assert(run[0] == card);
            if target.spec_is_foundation() {
                assert(run.len() == 1);
                assert(in_sequence(StackId::at(target.ord()), v.piles[target.ord()]));
                assert(all_face_up(v.piles[target.ord()]));
                if from == target {
                    assert(pile.last() == card);
                }
            }
            assert forall|i: int| 2 <= i < 6 implies all_face_up(#[trigger] w.piles[i])
                && in_sequence(StackId::at(i), w.piles[i]) by {
                let x = StackId::at(i);
                lemma_at_ord(i);
                lemma_move(v, source, target, x);
                assert(all_face_up(v.piles[i]) && in_sequence(x, v.piles[i]));
                if x == from && from != target {
                    assert(w.piles[i] == exposed(rest));
                    assert forall|k: int| 0 <= k < rest.len() implies exposed(rest)[k] == rest[k] by {
                        assert(rest[k] == pile[k]);
                    }
                } else if x == target && from != target {
                    assert(w.piles[i] == v.pile(target) + run);
                    assert forall|k: int| 0 <= k < w.piles[i].len() implies (
                    #[trigger] w.piles[i][k]).face_up && w.piles[i][k].rank.spec_number() == k + 1
                        && home_suit(x) == Some(w.piles[i][k].suit) by {
                        if k < v.pile(target).len() {
                            assert(w.piles[i][k] == v.piles[i][k]);
                        } else {
                            assert(w.piles[i][k] == card);
                            if v.pile(target).len() > 0 {
                                assert(v.piles[i][v.piles[i].len() - 1].rank.spec_number()
                                    == v.piles[i].len());
                            }
                        }
                    }
                }
            }
            assert(all_face_up(w.pile(StackId::Waste))) by {
                if from == StackId::Waste {
                    assert forall|k: int| 0 <= k < exposed(rest).len() implies (#[trigger] exposed(
                        rest,
                    )[k]).face_up by {
                        if k < rest.len() - 1 {
                            assert(rest[k] == pile[k]);
                        }
                    }
                }
            }
        },
        _ => {
            law_deal_conserves_cards(v);
            let stock = v.pile(StackId::Stock);
            let waste = v.pile(StackId::Waste);
            let new_stock = if stock.len() == 0 {
                turned_all(waste, false).reverse()
            } else {
                stock.subrange(
                    0,
                    if stock.len() < 3 {
                        0
                    } else {
                        stock.len() - 3
                    },
                )
            };
            let new_waste = w.pile(StackId::Waste);
            lemma_with_pile(v, StackId::Stock, new_stock, StackId::Waste);
            lemma_with_pile(
                v.with_pile(StackId::Stock, new_stock),
                StackId::Waste,
                new_waste,
                StackId::Waste,
            );
            assert forall|i: int| 2 <= i < 13 implies #[trigger] w.piles[i] == v.piles[i] by {
                lemma_at_ord(i);
                lemma_with_pile(v, StackId::Stock, new_stock, StackId::at(i));
                lemma_with_pile(
                    v.with_pile(StackId::Stock, new_stock),
                    StackId::Waste,
                    new_waste,
                    StackId::at(i),
                );
            }
            assert forall|i: int| 2 <= i < 6 implies all_face_up(#[trigger] w.piles[i])
                && in_sequence(StackId::at(i), w.piles[i]) by {
                assert(w.piles[i] == v.piles[i]);
            }
        },
    }
}

/// The lift-point invariant: along every line of play that the rules
/// allow, a table that was in order stays in order, and so the face-up
/// cards of every tableau are always the cards from some position up to the
/// top.
pub proof fn law_line_keeps_order(v: TableView, line: Seq<Play>)
    requires
        v.tidy(),
        v.legal_line(line),
    ensures
        v.played(line).tidy(),
        v.played(line).tableaux_shown(),
    decreases line.len(),
{
    if line.len() > 0 {
        law_line_keeps_order(v, line.drop_last());
        law_play_keeps_order(v.played(line.drop_last()), line.last());
    }
}

/// A play that the rules allow and that does not pick up from a foundation
/// leaves on every foundation the cards that lay there, and so the rank of
/// its top card does not go down.
pub proof fn law_play_keeps_foundations(v: TableView, play: Play, foundation: StackId)
    requires
        v.tidy(),
        v.allows(play),
        TableView::leaves_foundations(play),
        foundation.spec_is_foundation(),
    ensures
        is_base_of(v.pile(foundation), v.applied(play).pile(foundation)),
        top_rank(v.applied(play).pile(foundation)) >= top_rank(v.pile(foundation)),
{
    reveal(TableView::allows);
    let w = v.applied(play);
    lemma_ring(foundation);
    law_play_keeps_order(v, play);
    let before = v.pile(foundation);
    let after = w.pile(foundation);
    assert(in_sequence(StackId::at(foundation.ord()), v.piles[foundation.ord()]));
    assert(in_sequence(StackId::at(foundation.ord()), w.piles[foundation.ord()]));
    match play {
        Play::MoveCards(source, target) => {
            lemma_move(v, source, target, foundation);
            if foundation == target {
                let pile = v.pile(source.stack);
                let run = pile.subrange(source.index as int, pile.len() as int);
                assert((before + run).subrange(0, before.len() as int) =~= before);
            } else {
                assert(after.subrange(0, before.len() as int) =~= before);
            }
        },
        _ => {
            let stock = v.pile(StackId::Stock);
            let waste = v.pile(StackId::Waste);
            let new_stock = if stock.len() == 0 {
                turned_all(waste, false).reverse()
            } else {
                stock.subrange(
                    0,
                    if stock.len() < 3 {
                        0
                    } else {
                        stock.len() - 3
                    },
                )
            };
            lemma_with_pile(v, StackId::Stock, new_stock, foundation);
            lemma_with_pile(
                v.with_pile(StackId::Stock, new_stock),
                StackId::Waste,
                w.pile(StackId::Waste),
                foundation,
            );
            assert(after.subrange(0, before.len() as int) =~= before);
        },
    }
    if before.len() > 0 {
        assert(before[before.len() - 1].rank.spec_number() == before.len());
        assert(after[after.len() - 1].rank.spec_number() == after.len());
    }
}

/// Foundation monotonicity: along every line of play that the rules allow
/// and that never picks up from a foundation, what lies on a foundation
/// stays there, and the rank of its top card never goes down.
pub proof fn law_line_keeps_foundations(v: TableView, line: Seq<Play>, foundation: StackId)
    requires
        v.tidy(),
        v.steady_line(line),
        foundation.spec_is_foundation(),
    ensures
        v.legal_line(line),
        is_base_of(v.pile(foundation), v.played(line).pile(foundation)),
        top_rank(v.played(line).pile(foundation)) >= top_rank(v.pile(foundation)),
    decreases line.len(),
{
    if line.len() > 0 {
        let head = line.drop_last();
        law_line_keeps_foundations(v, head, foundation);
        law_line_keeps_order(v, head);
        law_play_keeps_foundations(v.played(head), line.last(), foundation);
        let a = v.pile(foundation);
        let b = v.played(head).pile(foundation);
        let c = v.played(line).pile(foundation);
        assert(c.subrange(0, a.len() as int) =~= b.subrange(0, a.len() as int)) by {
            assert forall|k: int| 0 <= k < a.len() implies c[k] == b[k] by {
                assert(c.subrange(0, b.len() as int)[k] == b[k]);
            }
        }
    } else {
        assert(v.pile(foundation).subrange(0, v.pile(foundation).len() as int) =~= v.pile(
            foundation,
        ));
    }
}

/// The position of a suit in a new deck.
pub open spec fn suit_position(suit: Suit) -> int {
    match suit {
        Suit::Diamond => 0,
        Suit::Club => 1,
        Suit::Heart => 2,
        Suit::Spade => 3,
    }
}

/// A deck holds every card once: none twice, and none is missing.
pub proof fn law_deck_holds_every_card_once(suit: Suit, rank: Rank)
    ensures
        full_deck().count((suit, rank)) == 1,
{
    broadcast use vstd::seq_lib::group_to_multiset_ensures;

    let ids = identities(fresh_deck());
    assert forall|i: int, j: int| 0 <= i < ids.len() && 0 <= j < ids.len() && i != j implies ids[i]
        != ids[j] by {
        assert(ids[i] == fresh_card(i).identity());
        assert(ids[j] == fresh_card(j).identity());
        if i / 13 == j / 13 {
            assert(i % 13 != j % 13);
        }
    }
    ids.lemma_multiset_has_no_duplicates();
    let at = 13 * suit_position(suit) + rank.spec_number() - 1;
    assert(ids[at] == fresh_card(at).identity());
    assert(ids[at] == (suit, rank));
    assert(ids.contains((suit, rank)));
    assert(ids.to_multiset().contains((suit, rank)));
}

/// The lower part of a pile cut in two holds the cards of its own two
/// parts.
pub proof fn lemma_cards_cut(pile: Seq<Card>, a: int, b: int)
    requires
        0 <= a <= b <= pile.len(),
    ensures
        cards_of(pile.subrange(0, b)) == cards_of(pile.subrange(0, a)).add(
            cards_of(pile.subrange(a, b)),
        ),
{
    let low = pile.subrange(0, b);
    lemma_cards_split(low, a);
    assert(low.subrange(0, a) =~= pile.subrange(0, a));
    assert(low.subrange(a, low.len() as int) =~= pile.subrange(a, b));
}

/// The table that is dealt from a deck of face-down cards is in order, and
/// it holds the cards of the deck.
pub proof fn law_deal_from_deck(deck: Seq<Card>)
    requires
        deck.len() >= 28,
        forall|i: int| 0 <= i < deck.len() ==> !(#[trigger] deck[i]).face_up,
    ensures
        dealt_from(deck).tidy(),
        dealt_from(deck).all_cards() == cards_of(deck),
{
    broadcast use vstd::multiset::group_multiset_axioms;

    let v = dealt_from(deck);
    let n = deck.len() as int;
    let none = Seq::<Card>::empty();
    assert(cards_of(none) =~= Multiset::empty()) by {
        assert(identities(none) =~= Seq::empty());
        identities(none).to_multiset_ensures();
    }
    assert forall|i: int| 6 <= i < 13 implies shows_its_top(#[trigger] v.piles[i]) && cards_of(
        v.piles[i],
    ) == cards_of(dealt_cards(deck, i - 6)) by {
        let dealt = dealt_cards(deck, i - 6);
        assert(v.piles[i] == flipped(dealt));
        assert forall|k: int| 0 <= k < dealt.len() implies !(#[trigger] dealt[k]).face_up by {
            assert(dealt[k] == deck[n - dealt_to(i - 5) + k]);
        }
        assert(identities(flipped(dealt)) =~= identities(dealt));
    }
    assert forall|i: int| 2 <= i < 6 implies all_face_up(#[trigger] v.piles[i]) && in_sequence(
        StackId::at(i),
        v.piles[i],
    ) by {
        assert(v.piles[i] =~= none);
    }
    assert(v.pile(StackId::Waste) =~= none);
    assert(v.pile(StackId::Hand) =~= none);
    assert(v.tidy());
    reveal_with_fuel(TableView::cards_in_first, 15);
    lemma_cards_cut(deck, n - 28, n - 21);
    lemma_cards_cut(deck, n - 21, n - 15);
    lemma_cards_cut(deck, n - 15, n - 10);
    lemma_cards_cut(deck, n - 10, n - 6);
    lemma_cards_cut(deck, n - 6, n - 3);
    lemma_cards_cut(deck, n - 3, n - 1);
    lemma_cards_cut(deck, n - 1, n);
    assert(deck.subrange(0, n) =~= deck);
    assert(v.piles[0] == deck.subrange(0, n - 28));
    assert(v.piles[1] =~= none);
    assert(v.piles[2] =~= none);
    assert(v.piles[3] =~= none);
    assert(v.piles[4] =~= none);
    assert(v.piles[5] =~= none);
    assert(v.piles[13] =~= none);
    assert(cards_of(v.piles[6]) == cards_of(deck.subrange(n - 1, n)));
    assert(cards_of(v.piles[7]) == cards_of(deck.subrange(n - 3, n - 1)));
    assert(cards_of(v.piles[8]) == cards_of(deck.subrange(n - 6, n - 3)));
    assert(cards_of(v.piles[9]) == cards_of(deck.subrange(n - 10, n - 6)));
    assert(cards_of(v.piles[10]) == cards_of(deck.subrange(n - 15, n - 10)));
    assert(cards_of(v.piles[11]) == cards_of(deck.subrange(n - 21, n - 15)));
    assert(cards_of(v.piles[12]) == cards_of(deck.subrange(n - 28, n - 21)));
    assert(v.all_cards() =~= cards_of(deck));
}

/// Determinism: one seed stands for one table. Two tables that are both
/// the table dealt for a seed are the same, pile by pile and card by card.
pub proof fn law_one_seed_one_table(seed: u64, first: TableView, second: TableView)
    requires
        first == dealt_from(deck_of(seed)),
        second == dealt_from(deck_of(seed)),
    ensures
        first == second,
        forall|id: StackId| first.pile(id) == second.pile(id),
{
}

/// Generation repeats itself: two lists that are both the plays of one
/// table are the same list, play by play.
pub proof fn law_one_table_one_list(table: TableView, first: Seq<Play>, second: Seq<Play>)
    requires
        first == table.plays(),
        second == table.plays(),
    ensures
        first == second,
{
}

/// When the stock is dealt out, the waste holds what it held and, on top
/// of that, the cards of the stock face up and in reverse.
pub proof fn lemma_dealt_out(v: TableView)
    requires
        v.wf(),
    ensures
        v.dealt_out().wf(),
        v.dealt_out().pile(StackId::Stock).len() == 0,
        v.dealt_out().pile(StackId::Waste) == v.pile(StackId::Waste) + turned_all(
            v.pile(StackId::Stock),
            true,
        ).reverse(),
    decreases v.pile(StackId::Stock).len(),
{
    let stock = v.pile(StackId::Stock);
    let waste = v.pile(StackId::Waste);
    if stock.len() == 0 {
        assert(waste + turned_all(stock, true).reverse() =~= waste);
    } else {
        let keep: int = if stock.len() < 3 {
            0
        } else {
            stock.len() - 3
        };
        let low = stock.subrange(0, keep);
        let high = stock.subrange(keep, stock.len() as int);
        let w = v.dealt();
        lemma_with_pile(v, StackId::Stock, low, StackId::Waste);
        lemma_with_pile(v, StackId::Stock, low, StackId::Stock);
        let v0 = v.with_pile(StackId::Stock, low);
        let new_waste = waste + turned_all(high, true).reverse();
        lemma_with_pile(v0, StackId::Waste, new_waste, StackId::Waste);
        lemma_with_pile(v0, StackId::Waste, new_waste, StackId::Stock);
        assert(w.pile(StackId::Stock) == low);
        assert(w.pile(StackId::Waste) == new_waste);
        lemma_dealt_out(w);
        assert(new_waste + turned_all(low, true).reverse() =~= waste + turned_all(
            stock,
            true,
        ).reverse());
    }
}

/// The recycle round trip: when the stock of a table with an empty waste
/// is dealt out and the waste is then recycled, the stock holds the cards
/// it held at first, in the order they had, every one face down, and the
/// waste is empty again.
pub proof fn law_recycle_restores_the_stock(v: TableView)
    requires
        v.wf(),
        v.pile(StackId::Waste).len() == 0,
    ensures
        v.dealt_out().dealt().pile(StackId::Stock) == turned_all(v.pile(StackId::Stock), false),
        identities(v.dealt_out().dealt().pile(StackId::Stock)) == identities(
            v.pile(StackId::Stock),
        ),
        v.dealt_out().dealt().pile(StackId::Waste).len() == 0,
{
    let stock = v.pile(StackId::Stock);
    let out = v.dealt_out();
    lemma_dealt_out(v);
    let waste = out.pile(StackId::Waste);
    assert(waste =~= turned_all(stock, true).reverse());
    let new_stock = turned_all(waste, false).reverse();
    lemma_with_pile(out, StackId::Stock, new_stock, StackId::Stock);
    lemma_with_pile(out, StackId::Stock, new_stock, StackId::Waste);
    let o1 = out.with_pile(StackId::Stock, new_stock);
    lemma_with_pile(o1, StackId::Waste, Seq::empty(), StackId::Stock);
    lemma_with_pile(o1, StackId::Waste, Seq::empty(), StackId::Waste);
    assert(new_stock =~= turned_all(stock, false));
    lemma_same_cards_turned(stock, false);
}

/// The search follows the rules: the plays of its frames, after the label
/// of the first, are a line of play that the rules allow from the table of
/// the first frame, and the table of each frame is where the line has led
/// by then.
pub proof fn law_search_follows_the_rules(s: SolverView, n: int)
    requires
        s.wf(),
        0 < n <= s.frames.len(),
    ensures
        s.frames[0].table.legal_line(s.path().subrange(1, n)),
        s.frames[0].table.played(s.path().subrange(1, n)) == s.frames[n - 1].table,
    decreases n,
{
    reveal(NodeView::follows);
    let line = s.path().subrange(1, n);
    if n > 1 {
        law_search_follows_the_rules(s, n - 1);
        assert(line.drop_last() =~= s.path().subrange(1, n - 1));
        assert(line.last() == s.frames[n - 1].play);
        assert(s.frames[n - 1].follows(s.frames[n - 2]));
    }
}

/// A search that is marked as won has found a solution: its plays are a
/// line of play that the rules allow from the table it started with, and
/// the line ends with all fifty-two cards on the foundations.
pub proof fn law_won_search_holds_a_solution(s: SolverView)
    requires
        s.wf(),
        s.solved,
    ensures
        s.frames.len() > 0,
        s.frames[0].table.legal_line(s.path().drop_first()),
        s.frames[0].table.played(s.path().drop_first()).won(),
{
    law_search_follows_the_rules(s, s.frames.len() as int);
    assert(s.path().drop_first() =~= s.path().subrange(1, s.frames.len() as int));
}

/// A game keeps its deck: along every line of play that the rules allow,
/// from a table in order that holds every card of the deck once, the table
/// stays in order and holds every card of the deck exactly once.
pub proof fn law_game_keeps_the_deck(start: TableView, line: Seq<Play>)
    requires
        start.tidy(),
        start.all_cards() == full_deck(),
        start.legal_line(line),
    ensures
        start.played(line).tidy(),
        start.played(line).all_cards() == full_deck(),
        forall|suit: Suit, rank: Rank|
            #[trigger] start.played(line).all_cards().count((suit, rank)) == 1,
{
    law_line_conserves_cards(start, line);
    law_line_keeps_order(start, line);
    assert forall|suit: Suit, rank: Rank|
        #[trigger] start.played(line).all_cards().count((suit, rank)) == 1 by {
        law_deck_holds_every_card_once(suit, rank);
    }
}

/// When the hand is put down on the pile under the target cursor, the
/// hand is empty.
pub proof fn lemma_hand_is_put_down(v: TableView)
    requires
        v.wf(),
    ensures
        v.hand_put_on_target().wf(),
        v.target != StackId::Hand && v.source.stack != StackId::Hand ==> v.hand_put_on_target().pile(
            StackId::Hand,
        ).len() == 0,
{
    let none = Seq::<Card>::empty();
    let emptied = v.with_pile(StackId::Hand, none);
    lemma_with_pile(v, StackId::Hand, none, StackId::Hand);
    lemma_with_pile(v, StackId::Hand, none, v.target);
    let onto = emptied.with_pile(v.target, emptied.pile(v.target) + v.pile(StackId::Hand));
    lemma_with_pile(emptied, v.target, emptied.pile(v.target) + v.pile(StackId::Hand), StackId::Hand);
    lemma_with_pile(
        emptied,
        v.target,
        emptied.pile(v.target) + v.pile(StackId::Hand),
        v.source.stack,
    );
    lemma_with_pile(onto, v.source.stack, exposed(onto.pile(v.source.stack)), StackId::Hand);
}

} // verus!
