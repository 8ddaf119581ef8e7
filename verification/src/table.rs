//! The table: stock, waste, four foundations, seven tableaux and the hand,
//! with the primitives that move cards between them.

use crate::card::{Card, Rank, Suit};
use crate::deck::{deck_of, make_deck};
use crate::ids::{lemma_at_ord, lemma_ring, Source, StackId, StackType};
use crate::laws::{
    full_deck, law_deal_conserves_cards, law_deal_from_deck, law_expose_conserves_cards,
    law_put_conserves_cards, law_take_conserves_cards, law_take_top_conserves_cards,
    lemma_cards_are_of_the_piles,
};
use crate::stack::{
    accepts_hand, exposed, flipped, next_active, position_of, previous_active, Stack,
};
use vstd::prelude::*;

verus! {

/// What a table holds, as plain values: the cards of each pile, indexed by
/// the position of the pile's name, and the two cursors of a player.
#[verifier::ext_equal]
pub struct TableView {
    pub piles: Seq<Seq<Card>>,
    pub source: Source,
    pub target: StackId,
}

impl TableView {
    /// There is one pile for each name.
    pub open spec fn wf(self) -> bool {
        self.piles.len() == 14
    }

    /// The cards of a pile, bottom first.
    pub open spec fn pile(self, id: StackId) -> Seq<Card> {
        self.piles[id.ord()]
    }

    /// This table with the cards of one pile replaced.
    pub open spec fn with_pile(self, id: StackId, cards: Seq<Card>) -> TableView {
        TableView {
            piles: self.piles.update(id.ord(), cards),
            source: self.source,
            target: self.target,
        }
    }

    /// The table after a deal. From a stock that holds cards, its top
    /// three (or all, if it holds fewer) go to the waste one by one and face
    /// up, so that the last one dealt is the new top of the waste. From an
    /// empty stock the waste is recycled: turned over as a whole, it becomes
    /// the stock, every card face down.
    pub open spec fn dealt(self) -> TableView {
        let stock = self.pile(StackId::Stock);
        let waste = self.pile(StackId::Waste);
        if stock.len() == 0 {
            self.with_pile(StackId::Stock, turned_all(waste, false).reverse()).with_pile(
                StackId::Waste,
                Seq::empty(),
            )
        } else {
            let keep = if stock.len() < 3 {
                0
            } else {
                stock.len() - 3
            };
            self.with_pile(StackId::Stock, stock.subrange(0, keep)).with_pile(
                StackId::Waste,
                waste + turned_all(stock.subrange(keep, stock.len() as int), true).reverse(),
            )
        }
    }

    /// The table with the top card of a pile turned face up.
    pub open spec fn top_exposed(self, id: StackId) -> TableView {
        self.with_pile(id, exposed(self.pile(id)))
    }

    /// The table after the top card of a pile went to the hand, face up.
    /// Nothing moves from an empty pile.
    pub open spec fn top_taken(self, id: StackId) -> TableView {
        if self.pile(id).len() == 0 {
            self
        } else {
            let rest = self.with_pile(id, self.pile(id).drop_last());
            rest.with_pile(
                StackId::Hand,
                rest.pile(StackId::Hand).push(self.pile(id).last().turned(true)),
            )
        }
    }

    /// The table after the cards of a pile from `index` up were picked up:
    /// they leave the pile and lie in the hand, on top of what the hand
    /// held. Nothing moves if there is no card at `index`.
    pub open spec fn taken(self, id: StackId, index: int) -> TableView {
        if 0 <= index < self.pile(id).len() {
            let rest = self.with_pile(id, self.pile(id).subrange(0, index));
            rest.with_pile(
                StackId::Hand,
                rest.pile(StackId::Hand) + self.pile(id).subrange(
                    index,
                    self.pile(id).len() as int,
                ),
            )
        } else {
            self
        }
    }

    /// The table after the hand was put down on a pile: the hand is empty,
    /// its cards lie on top of the pile in the order they had, and the top
    /// card of the pile they came from is face up.
    pub open spec fn put(self, from: StackId, onto: StackId) -> TableView {
        let emptied = self.with_pile(StackId::Hand, Seq::empty());
        emptied.with_pile(onto, emptied.pile(onto) + self.pile(StackId::Hand)).top_exposed(from)
    }

    /// How high a pile stands once the hand is emptied: where cards that
    /// are put on it land.
    pub open spec fn landing(self, onto: StackId) -> int {
        self.with_pile(StackId::Hand, Seq::empty()).pile(onto).len() as int
    }

    /// This table with the cursors set.
    pub open spec fn with_cursors(self, source: Source, target: StackId) -> TableView {
        TableView { piles: self.piles, source, target }
    }

    /// Where the lowest card with this rank and suit lies, looking through
    /// the piles from position `from` on in the order of their names.
    pub open spec fn located_from(self, rank: Rank, suit: Suit, from: int) -> Option<Source>
        decreases 14 - from,
    {
        if from < 0 || from >= 14 {
            None
        } else {
            match position_of(self.piles[from], rank, suit) {
                Some(i) => Some(Source { stack: StackId::at(from), index: i as usize }),
                None => self.located_from(rank, suit, from + 1),
            }
        }
    }

    /// Where the card with this rank and suit lies: the first pile that
    /// holds it, in the order of the names, and its lowest position there.
    pub open spec fn location_of(self, rank: Rank, suit: Suit) -> Option<Source> {
        self.located_from(rank, suit, 0)
    }

    /// How many cards lie on the four foundations.
    pub open spec fn foundation_count(self) -> nat {
        self.piles[2].len() + self.piles[3].len() + self.piles[4].len() + self.piles[5].len()
    }

    /// The game is won when fifty-two cards lie on the foundations.
    pub open spec fn won(self) -> bool {
        self.foundation_count() == 52
    }

    /// The pile that a cursor reaches from the source pile in `k` steps
    /// round the ring.
    pub open spec fn walked(self, k: nat, forward: bool) -> StackId {
        if forward {
            self.source.stack.forward(k)
        } else {
            self.source.stack.backward(k)
        }
    }

    /// What the pile reached in `k` steps offers to the cursor: in the
    /// source pile the next place after (or before) the cursor, in every
    /// other pile its first (or last) place.
    pub open spec fn offer(self, k: nat, forward: bool) -> Option<usize> {
        let id = self.walked(k, forward);
        let start = if k == 0 {
            Some(self.source.index)
        } else {
            None
        };
        if forward {
            next_active(id.spec_kind(), self.pile(id), start)
        } else {
            previous_active(id.spec_kind(), self.pile(id), start)
        }
    }

    /// The first place that is offered to the cursor from step `k` of its
    /// walk on. The walk ends after thirteen steps, back in the source
    /// pile.
    pub open spec fn active_from(self, k: nat, forward: bool) -> Option<Source>
        decreases 14 - k,
    {
        if k >= 14 {
            None
        } else {
            match self.offer(k, forward) {
                Some(index) => Some(Source { stack: self.walked(k, forward), index }),
                None => self.active_from(k + 1, forward),
            }
        }
    }

    /// One step round the ring.
    pub open spec fn step(id: StackId, forward: bool) -> StackId {
        if forward {
            id.spec_next()
        } else {
            id.spec_previous()
        }
    }

    /// Whether a pile accepts what the hand holds.
    pub open spec fn accepts_hand(self, id: StackId) -> bool {
        accepts_hand(id.spec_kind(), id, self.pile(id), self.pile(StackId::Hand))
    }

    /// Where a walk round the ring that stands on `at` and has `steps`
    /// steps left puts the hand down: on the first pile that accepts the
    /// hand, but no further than the source pile. A walk that runs out of
    /// steps leaves the target cursor where it was.
    pub open spec fn play_location_from(self, at: StackId, steps: nat, forward: bool) -> StackId
        decreases steps,
    {
        if steps == 0 {
            self.target
        } else if self.accepts_hand(at) {
            at
        } else if Self::step(at, forward) == self.source.stack {
            self.source.stack
        } else {
            self.play_location_from(Self::step(at, forward), (steps - 1) as nat, forward)
        }
    }

    /// The pile on which the hand is put down next: the walk starts one
    /// step from the target cursor and goes once round the ring at most.
    pub open spec fn play_location(self, forward: bool) -> StackId {
        self.play_location_from(Self::step(self.target, forward), 13, forward)
    }

    /// The table after the player moved on (or back): with cards in hand
    /// the target cursor moves to the next pile to put them on, with an
    /// empty hand the source cursor moves to the next place to pick up
    /// from, and to the bottom of the stock if there is none.
    pub open spec fn gone(self, forward: bool) -> TableView {
        if self.pile(StackId::Hand).len() > 0 {
            self.with_cursors(self.source, self.play_location(forward))
        } else {
            match self.active_from(0, forward) {
                Some(source) => self.with_cursors(source, self.target),
                None => self.with_cursors(Source { stack: StackId::Stock, index: 0 }, self.target),
            }
        }
    }
}

/// The cards of a pile, each turned the given side up.
pub open spec fn turned_all(cards: Seq<Card>, face_up: bool) -> Seq<Card> {
    cards.map_values(|c: Card| c.turned(face_up))
}

/// How many cards the first `k` tableaux are dealt between them: one for
/// the first tableau, two for the second, and so on.
pub open spec fn dealt_to(k: int) -> int {
    if k <= 0 {
        0
    } else if k == 1 {
        1
    } else if k == 2 {
        3
    } else if k == 3 {
        6
    } else if k == 4 {
        10
    } else if k == 5 {
        15
    } else if k == 6 {
        21
    } else {
        28
    }
}

/// The cards that tableau `k` (from 0) is dealt from a deck. The tableaux
/// are dealt from the end of the deck: the first takes the last card, the
/// second the two before it, and so on.
pub open spec fn dealt_cards(deck: Seq<Card>, k: int) -> Seq<Card> {
    deck.subrange(deck.len() - dealt_to(k + 1), deck.len() - dealt_to(k))
}

/// The table that is dealt from a deck of at least twenty-eight cards:
/// tableau `k` (from 0) gets `k + 1` cards from the end of what is left of
/// the deck, its top card turned over; the stock keeps the rest; waste,
/// foundations and hand are empty; both cursors are on the stock.
pub open spec fn dealt_from(deck: Seq<Card>) -> TableView {
    TableView {
        piles: Seq::new(
            14,
            |i: int|
                if i == 0 {
                    deck.subrange(0, deck.len() - 28)
                } else if 6 <= i <= 12 {
                    flipped(dealt_cards(deck, i - 6))
                } else {
                    Seq::<Card>::empty()
                },
        ),
        source: Source { stack: StackId::Stock, index: 0 },
        target: StackId::Stock,
    }
}

/// Two stacks carry the same name and kind and hold the same cards.
pub open spec fn same_stack(a: Stack, b: Stack) -> bool {
    a.stack_id == b.stack_id && a.stack_type == b.stack_type && a.cards@ == b.cards@
}

/// A table of Klondike solitaire.
#[derive(Debug, PartialEq, Eq, Hash)]
pub struct Table {
    pub stock: Stack,
    pub waste: Stack,
    pub in_hand: Stack,
    pub foundations: Vec<Stack>,
    pub tableaux: Vec<Stack>,
    pub source: Source,
    pub target: StackId,
}

impl View for Table {
    type V = TableView;

    /// The cards of each pile, in the order of the names, and the cursors.
    open spec fn view(&self) -> TableView {
        TableView {
            piles: Seq::new(14, |i: int| self.stack(StackId::at(i)).cards@),
            source: self.source,
            target: self.target,
        }
    }
}

impl Clone for Table {
    /// A table of its own with the same piles and cursors.
    fn clone(&self) -> (r: Self)
        ensures
            self.wf() ==> r.wf(),
            self.wf() ==> r@ == self@,
            r.source == self.source,
            r.target == self.target,
            same_stack(r.stock, self.stock),
            same_stack(r.waste, self.waste),
            same_stack(r.in_hand, self.in_hand),
            r.foundations@.len() == self.foundations@.len(),
            r.tableaux@.len() == self.tableaux@.len(),
            forall|i: int|
                0 <= i < self.foundations@.len() ==> same_stack(
                    #[trigger] r.foundations@[i],
                    self.foundations@[i],
                ),
            forall|i: int|
                0 <= i < self.tableaux@.len() ==> same_stack(
                    #[trigger] r.tableaux@[i],
                    self.tableaux@[i],
                ),
    {
        let mut foundations: Vec<Stack> = Vec::new();
        let mut i: usize = 0;
        while i < self.foundations.len()
            invariant
                i <= self.foundations@.len(),
                foundations@.len() == i,
                forall|k: int|
                    0 <= k < i ==> {
                        &&& (#[trigger] foundations@[k]).stack_id == self.foundations@[k].stack_id
                        &&& foundations@[k].stack_type == self.foundations@[k].stack_type
                        &&& foundations@[k].cards@ == self.foundations@[k].cards@
                    },
            decreases self.foundations@.len() - i,
        {
            foundations.push(self.foundations[i].clone());
            i += 1;
        }
        let mut tableaux: Vec<Stack> = Vec::new();
        let mut j: usize = 0;
        while j < self.tableaux.len()
            invariant
                j <= self.tableaux@.len(),
                tableaux@.len() == j,
                forall|k: int|
                    0 <= k < j ==> {
                        &&& (#[trigger] tableaux@[k]).stack_id == self.tableaux@[k].stack_id
                        &&& tableaux@[k].stack_type == self.tableaux@[k].stack_type
                        &&& tableaux@[k].cards@ == self.tableaux@[k].cards@
                    },
            decreases self.tableaux@.len() - j,
        {
            tableaux.push(self.tableaux[j].clone());
            j += 1;
        }
        let r = Table {
            stock: self.stock.clone(),
            waste: self.waste.clone(),
            in_hand: self.in_hand.clone(),
            foundations,
            tableaux,
            source: self.source,
            target: self.target,
        };
        proof {
            if self.wf() {
                assert(r@.piles =~= self@.piles);
            }
        }
        r
    }
}

impl Table {
    /// The pile that carries a name. Meaningful on a table with four
    /// foundations and seven tableaux.
    pub open spec fn stack(&self, id: StackId) -> Stack {
        match id {
            StackId::Stock => self.stock,
            StackId::Waste => self.waste,
            StackId::Foundation1 => self.foundations@[0],
            StackId::Foundation2 => self.foundations@[1],
            StackId::Foundation3 => self.foundations@[2],
            StackId::Foundation4 => self.foundations@[3],
            StackId::Tableau1 => self.tableaux@[0],
            StackId::Tableau2 => self.tableaux@[1],
            StackId::Tableau3 => self.tableaux@[2],
            StackId::Tableau4 => self.tableaux@[3],
            StackId::Tableau5 => self.tableaux@[4],
            StackId::Tableau6 => self.tableaux@[5],
            StackId::Tableau7 => self.tableaux@[6],
            StackId::Hand => self.in_hand,
        }
    }

    /// The table has four foundations and seven tableaux, and every pile
    /// carries its own name and the kind that goes with it.
    pub open spec fn wf(&self) -> bool {
        &&& self.foundations@.len() == 4
        &&& self.tableaux@.len() == 7
        &&& self.stock.stack_id == StackId::Stock
        &&& self.stock.stack_type == StackType::Stock
        &&& self.waste.stack_id == StackId::Waste
        &&& self.waste.stack_type == StackType::Waste
        &&& self.in_hand.stack_id == StackId::Hand
        &&& self.in_hand.stack_type == StackType::Hand
        &&& forall|i: int|
            0 <= i < 4 ==> (#[trigger] self.foundations@[i]).stack_id == StackId::at(2 + i)
                && self.foundations@[i].stack_type == StackType::Foundation
        &&& forall|i: int|
            0 <= i < 7 ==> (#[trigger] self.tableaux@[i]).stack_id == StackId::at(6 + i)
                && self.tableaux@[i].stack_type == StackType::Tableau
    }

    /// The view of a pile is the cards of the stack that carries its name,
    /// and on a well-formed table that stack is labelled with the name.
    pub proof fn lemma_pile(&self, id: StackId)
        ensures
            self@.wf(),
            self@.pile(id) == self.stack(id).cards@,
            self.wf() ==> self.stack(id).stack_id == id && self.stack(id).stack_type
                == id.spec_kind(),
    {
        lemma_ring(id);
    }

    /// No pile of a table holds more cards than a position can count.
    pub proof fn lemma_countable(&self)
        ensures
            self@.countable(),
    {
        assert forall|i: int| 0 <= i < 14 implies (#[trigger] self@.piles[i]).len()
            <= usize::MAX by {
            assert(self@.piles[i] == self.stack(StackId::at(i)).cards@);
            assert(self.stack(StackId::at(i)).cards.len() <= usize::MAX);
        }
    }

    /// Deals a new table from the deck that `seed` stands for: the table
    /// is in order and holds every card of the deck once.
    pub fn new(seed: u64) -> (t: Self)
        ensures
            t.wf(),
            t@ == dealt_from(deck_of(seed)),
            deck_of(seed).len() == 52,
            forall|i: int| 0 <= i < 52 ==> !(#[trigger] deck_of(seed)[i]).face_up,
            t@.tidy(),
            t@.all_cards() == full_deck(),
    {
        let cards = make_deck(seed);
        proof {
            law_deal_from_deck(cards@);
        }
        Self::deal(cards)
    }

    /// Deals a new table from a deck of at least twenty-eight cards.
    pub fn deal(cards: Vec<Card>) -> (t: Self)
        requires
            cards@.len() >= 28,
        ensures
            t.wf(),
            t@ == dealt_from(cards@),
    {
        let mut cards = cards;
        let ghost deck = cards@;

        let mut foundations: Vec<Stack> = Vec::new();
        foundations.push(Stack::new(StackId::Foundation1));
        foundations.push(Stack::new(StackId::Foundation2));
        foundations.push(Stack::new(StackId::Foundation3));
        foundations.push(Stack::new(StackId::Foundation4));

        let mut tableaux: Vec<Stack> = Vec::new();
        let mut k: usize = 0;
        while k < 7
            invariant
                k <= 7,
                deck.len() >= 28,
                cards@.len() == deck.len() - dealt_to(k as int),
                cards@ == deck.subrange(0, cards@.len() as int),
                tableaux@.len() == k,
                forall|j: int|
                    0 <= j < k ==> {
                        &&& (#[trigger] tableaux@[j]).stack_id == StackId::at(6 + j)
                        &&& tableaux@[j].stack_type == StackType::Tableau
                        &&& tableaux@[j].cards@ == flipped(dealt_cards(deck, j))
                    },
            decreases 7 - k,
        {
            let stack_count = k + 1;
            let start = cards.len() - stack_count;
            let dealt = cards.split_off(start);
            assert(dealt@ =~= dealt_cards(deck, k as int));
            assert(cards@ =~= deck.subrange(0, start as int));
            let mut stack = Stack {
                stack_id: StackId::from_index(6 + k),
                stack_type: StackType::Tableau,
                cards: dealt,
            };
            stack.flip_top_card();
            tableaux.push(stack);
            k += 1;
        }

        let stock = Stack { stack_id: StackId::Stock, stack_type: StackType::Stock, cards };
        let waste = Stack::new(StackId::Waste);
        let in_hand = Stack::new(StackId::Hand);
        let source_index = match stock.next_active_card(None) {
            Some(index) => index,
            None => 0,
        };
        let t = Table {
            stock,
            waste,
            foundations,
            tableaux,
            in_hand,
            source: Source { stack: StackId::Stock, index: source_index },
            target: StackId::Stock,
        };
        proof {
            assert(t.wf());
            assert(t@.piles =~= dealt_from(deck).piles);
        }
        t
    }

    /// The pile that carries a name.
    pub fn get_stack(&self, stack_type: StackId) -> (r: &Stack)
        requires
            self.foundations@.len() == 4,
            self.tableaux@.len() == 7,
        ensures
            *r == self.stack(stack_type),
            r.cards@ == self@.pile(stack_type),
            self.wf() ==> r.stack_id == stack_type && r.stack_type == stack_type.spec_kind(),
    {
        proof {
            self.lemma_pile(stack_type);
        }
        match stack_type {
            StackId::Stock => &self.stock,
            StackId::Waste => &self.waste,
            StackId::Foundation1 => &self.foundations[0],
            StackId::Foundation2 => &self.foundations[1],
            StackId::Foundation3 => &self.foundations[2],
            StackId::Foundation4 => &self.foundations[3],
            StackId::Tableau1 => &self.tableaux[0],
            StackId::Tableau2 => &self.tableaux[1],
            StackId::Tableau3 => &self.tableaux[2],
            StackId::Tableau4 => &self.tableaux[3],
            StackId::Tableau5 => &self.tableaux[4],
            StackId::Tableau6 => &self.tableaux[5],
            StackId::Tableau7 => &self.tableaux[6],
            StackId::Hand => &self.in_hand,
        }
    }

    /// The pile that carries a name, to be changed in place. Every other
    /// pile, and both cursors, stay as they are.
    pub fn get_stack_mut(&mut self, stack_type: StackId) -> (r: &mut Stack)
        requires
            old(self).foundations@.len() == 4,
            old(self).tableaux@.len() == 7,
        ensures
            *r == old(self).stack(stack_type),
            final(self).stack(stack_type) == *final(r),
            forall|other: StackId|
                other != stack_type ==> #[trigger] final(self).stack(other) == old(self).stack(
                    other,
                ),
            final(self).foundations@.len() == 4,
            final(self).tableaux@.len() == 7,
            final(self).source == old(self).source,
            final(self).target == old(self).target,
    {
        match stack_type {
            StackId::Stock => &mut self.stock,
            StackId::Waste => &mut self.waste,
            StackId::Foundation1 => &mut self.foundations[0],
            StackId::Foundation2 => &mut self.foundations[1],
            StackId::Foundation3 => &mut self.foundations[2],
            StackId::Foundation4 => &mut self.foundations[3],
            StackId::Tableau1 => &mut self.tableaux[0],
            StackId::Tableau2 => &mut self.tableaux[1],
            StackId::Tableau3 => &mut self.tableaux[2],
            StackId::Tableau4 => &mut self.tableaux[3],
            StackId::Tableau5 => &mut self.tableaux[4],
            StackId::Tableau6 => &mut self.tableaux[5],
            StackId::Tableau7 => &mut self.tableaux[6],
            StackId::Hand => &mut self.in_hand,
        }
    }

    /// Whether the hand holds cards.
    pub fn cards_in_hand(&self) -> (r: bool)
        ensures
            r == (self@.pile(StackId::Hand).len() > 0),
    {
        proof {
            self.lemma_pile(StackId::Hand);
        }
        self.in_hand.cards.len() > 0
    }

    /// Whether the stock holds cards.
    pub fn has_cards_in_stock(&self) -> (r: bool)
        ensures
            r == (self@.pile(StackId::Stock).len() > 0),
    {
        proof {
            self.lemma_pile(StackId::Stock);
        }
        self.stock.cards.len() > 0
    }

    /// Whether the waste holds cards.
    pub fn has_cards_in_waste(&self) -> (r: bool)
        ensures
            r == (self@.pile(StackId::Waste).len() > 0),
    {
        proof {
            self.lemma_pile(StackId::Waste);
        }
        self.waste.cards.len() > 0
    }

    /// Deals from the stock to the waste, or recycles the waste if the
    /// stock is empty.
    pub fn deal_from_stock(&mut self)
        requires
            old(self).wf(),
        ensures
            final(self).wf(),
            final(self)@ == old(self)@.dealt(),
            final(self)@.all_cards() == old(self)@.all_cards(),
    {
        proof {
            law_deal_conserves_cards(old(self)@);
        }
        let ghost before = *self;
        let ghost stock0 = self.stock.cards@;
        let ghost waste0 = self.waste.cards@;
        proof {
            before.lemma_pile(StackId::Stock);
            before.lemma_pile(StackId::Waste);
        }
        let stock_len = self.stock.cards.len();
        let amount_to_deal: usize = if stock_len < 3 {
            stock_len
        } else {
            3
        };
        if amount_to_deal == 0 {
            let mut moved: usize = 0;
            let waste_len = self.waste.cards.len();
            while moved < waste_len
                invariant
                    moved <= waste_len,
                    waste_len == waste0.len(),
                    self.waste.cards@ == waste0.subrange(0, waste_len - moved),
                    self.stock.cards@ == turned_all(
                        waste0.subrange(waste_len - moved, waste_len as int),
                        false,
                    ).reverse(),
                    self.stock.stack_id == before.stock.stack_id,
                    self.stock.stack_type == before.stock.stack_type,
                    self.waste.stack_id == before.waste.stack_id,
                    self.waste.stack_type == before.waste.stack_type,
                    self.in_hand == before.in_hand,
                    self.foundations == before.foundations,
                    self.tableaux == before.tableaux,
                    self.source == before.source,
                    self.target == before.target,
                decreases waste_len - moved,
            {
                let ghost s0 = self.stock.cards@;
                match self.waste.cards.pop() {
                    Some(card) => {
                        self.stock.cards.push(
                            Card { suit: card.suit, rank: card.rank, face_up: false },
                        );
                    },
                    None => {},
                }
                moved += 1;
                assert(self.waste.cards@ =~= waste0.subrange(0, waste_len - moved));
                assert(self.stock.cards@ =~= turned_all(
                    waste0.subrange(waste_len - moved, waste_len as int),
                    false,
                ).reverse());
            }
            proof {
                assert(waste0.subrange(0, waste_len as int) =~= waste0);
                assert(self.waste.cards@ =~= Seq::<Card>::empty());
                assert(before@.pile(StackId::Stock) == stock0);
                assert(before@.pile(StackId::Waste) == waste0);
                assert(self@.piles[0] == before@.dealt().piles[0]);
                assert(self@.piles[1] == before@.dealt().piles[1]);
                assert(self@.piles =~= before@.dealt().piles);
            }
        } else {
            let mut dealt: usize = 0;
            while dealt < amount_to_deal
                invariant
                    dealt <= amount_to_deal <= stock_len,
                    stock_len == stock0.len(),
                    self.stock.cards@ == stock0.subrange(0, stock_len - dealt),
                    self.waste.cards@ == waste0 + turned_all(
                        stock0.subrange(stock_len - dealt, stock_len as int),
                        true,
                    ).reverse(),
                    self.stock.stack_id == before.stock.stack_id,
                    self.stock.stack_type == before.stock.stack_type,
                    self.waste.stack_id == before.waste.stack_id,
                    self.waste.stack_type == before.waste.stack_type,
                    self.in_hand == before.in_hand,
                    self.foundations == before.foundations,
                    self.tableaux == before.tableaux,
                    self.source == before.source,
                    self.target == before.target,
                decreases amount_to_deal - dealt,
            {
                match self.stock.cards.pop() {
                    Some(card) => {
                        self.waste.cards.push(
                            Card { suit: card.suit, rank: card.rank, face_up: true },
                        );
                    },
                    None => {},
                }
                dealt += 1;
                assert(self.stock.cards@ =~= stock0.subrange(0, stock_len - dealt));
                assert(self.waste.cards@ =~= waste0 + turned_all(
                    stock0.subrange(stock_len - dealt, stock_len as int),
                    true,
                ).reverse());
            }
            proof {
                let keep: int = if stock_len < 3 {
                    0
                } else {
                    stock_len - 3
                };
                assert(stock_len - dealt == keep);
                assert(before@.pile(StackId::Stock) == stock0);
                assert(before@.pile(StackId::Waste) == waste0);
                assert(self@.piles[0] == before@.dealt().piles[0]);
                assert(self@.piles[1] == before@.dealt().piles[1]);
                assert(self@.piles =~= before@.dealt().piles);
            }
        }
    }

    /// Recycles the waste into the stock. It does what a deal does, and is
    /// meant for a table whose stock is empty.
    pub fn recycle_waste(&mut self)
        requires
            old(self).wf(),
        ensures
            final(self).wf(),
            final(self)@ == old(self)@.dealt(),
            final(self)@.all_cards() == old(self)@.all_cards(),
    {
        proof {
            law_deal_conserves_cards(old(self)@);
        }
        self.deal_from_stock();
    }

    /// Turns the top card of a pile face up.
    pub fn expose_top_card_of_stack(&mut self, stack_id: StackId)
        requires
            old(self).wf(),
        ensures
            final(self).wf(),
            final(self)@ == old(self)@.top_exposed(stack_id),
            final(self)@.all_cards() == old(self)@.all_cards(),
    {
        proof {
            law_expose_conserves_cards(old(self)@, stack_id);
        }
        let ghost before = *self;
        proof {
            before.lemma_pile(stack_id);
        }
        let stack = self.get_stack_mut(stack_id);
        stack.expose_top_card();
        proof {
            lemma_one_pile_changed(before, *self, stack_id);
        }
    }

    /// Takes the top card of a pile into the hand, face up.
    pub fn take_top_card_from_stack(&mut self, stack_id: StackId)
        requires
            old(self).wf(),
        ensures
            final(self).wf(),
            final(self)@ == old(self)@.top_taken(stack_id),
            final(self)@.all_cards() == old(self)@.all_cards(),
    {
        proof {
            law_take_top_conserves_cards(old(self)@, stack_id);
        }
        let ghost before = *self;
        proof {
            before.lemma_pile(stack_id);
        }
        let stack = self.get_stack_mut(stack_id);
        let count = stack.cards.len();
        if count > 0 {
            let last_index = count - 1;
            let card = stack.cards.remove(last_index);
            proof {
                lemma_one_pile_changed(before, *self, stack_id);
            }
            let ghost rest = *self;
            proof {
                rest.lemma_pile(StackId::Hand);
                assert(rest@.pile(stack_id) =~= before@.pile(stack_id).drop_last());
            }
            self.in_hand.cards.push(Card { suit: card.suit, rank: card.rank, face_up: true });
            proof {
                lemma_one_pile_changed(rest, *self, StackId::Hand);
            }
        } else {
            proof {
                lemma_one_pile_changed(before, *self, stack_id);
                assert(self@.piles =~= before@.piles);
            }
        }
    }

    /// Picks up the cards of a pile from `index` up: they leave the pile
    /// and lie in the hand, on top of what the hand held. Nothing moves if
    /// there is no card at `index`. No card is lost.
    pub fn take_selected_cards_from_stack(&mut self, stack_id: StackId, index: usize)
        requires
            old(self).wf(),
        ensures
            final(self).wf(),
            final(self)@ == old(self)@.taken(stack_id, index as int),
            final(self)@.all_cards() == old(self)@.all_cards(),
    {
        let ghost before = *self;
        proof {
            before.lemma_pile(stack_id);
            law_take_conserves_cards(before@, stack_id, index as int);
        }
        let stack = self.get_stack_mut(stack_id);
        if index < stack.cards.len() {
            let mut cards_for_hand = stack.cards.split_off(index);
            proof {
                lemma_one_pile_changed(before, *self, stack_id);
            }
            let ghost rest = *self;
            proof {
                rest.lemma_pile(StackId::Hand);
            }
            self.in_hand.cards.append(&mut cards_for_hand);
            proof {
                lemma_one_pile_changed(rest, *self, StackId::Hand);
                self.lemma_pile(StackId::Hand);
            }
        } else {
            proof {
                lemma_one_pile_changed(before, *self, stack_id);
                assert(self@.piles =~= before@.piles);
            }
        }
    }

    /// Puts the hand down on a pile and turns the top card of the pile
    /// that `source` names face up. Returns the position at which the lowest
    /// card of the hand landed.
    pub fn put_hand_on_stack(&mut self, source: Source, stack_id: StackId) -> (index: usize)
        requires
            old(self).wf(),
        ensures
            final(self).wf(),
            final(self)@ == old(self)@.put(source.stack, stack_id),
            final(self)@.all_cards() == old(self)@.all_cards(),
            index == old(self)@.landing(stack_id),
    {
        proof {
            law_put_conserves_cards(old(self)@, source.stack, stack_id);
        }
        let ghost before = *self;
        proof {
            before.lemma_pile(StackId::Hand);
        }
        let mut cards: Vec<Card> = Vec::new();
        std::mem::swap(&mut cards, &mut self.in_hand.cards);
        proof {
            lemma_one_pile_changed(before, *self, StackId::Hand);
        }
        let ghost emptied = *self;
        proof {
            emptied.lemma_pile(stack_id);
        }
        let target_stack = self.get_stack_mut(stack_id);
        let index = target_stack.cards.len();
        target_stack.cards.append(&mut cards);
        proof {
            lemma_one_pile_changed(emptied, *self, stack_id);
        }
        self.expose_top_card_of_stack(source.stack);
        index
    }

    /// Puts the hand down on the pile under the target cursor, and moves
    /// the source cursor to where the lowest card of the hand landed.
    pub fn put_hand_on_target(&mut self)
        requires
            old(self).wf(),
        ensures
            final(self).wf(),
            final(self)@ == old(self)@.hand_put_on_target(),
            final(self)@.all_cards() == old(self)@.all_cards(),
    {
        proof {
            law_put_conserves_cards(old(self)@, old(self)@.source.stack, old(self)@.target);
            assert(old(self)@.hand_put_on_target().piles == old(self)@.put(
                old(self)@.source.stack,
                old(self)@.target,
            ).piles);
            lemma_cards_are_of_the_piles(
                old(self)@.hand_put_on_target(),
                old(self)@.put(old(self)@.source.stack, old(self)@.target),
                14,
            );
        }
        let target = self.target;
        let index = self.put_hand_on_stack(self.source, target);
        let ghost put = *self;
        self.source = Source { stack: target, index };
        proof {
            assert(self@.piles =~= put@.piles);
        }
    }

    /// Where the card with this rank and suit lies: the first pile that
    /// holds it, in the order of the names, and its lowest position there.
    pub fn find_card(&self, rank: Rank, suit: Suit) -> (r: Option<Source>)
        requires
            self.wf(),
        ensures
            r == self@.location_of(rank, suit),
    {
        let mut i: usize = 0;
        while i < 14
            invariant
                i <= 14,
                self.wf(),
                self@.location_of(rank, suit) == self@.located_from(rank, suit, i as int),
            decreases 14 - i,
        {
            let stack_id = StackId::from_index(i);
            proof {
                lemma_ring(stack_id);
            }
            let stack = self.get_stack(stack_id);
            match stack.find_card(rank, suit) {
                Some(index) => {
                    return Some(Source { stack: stack_id, index });
                },
                None => {},
            }
            i += 1;
        }
        None
    }

    /// How many cards lie on the four foundations; the largest number that
    /// the result can hold if they are more.
    pub fn cards_in_foundation(&self) -> (r: usize)
        requires
            self.wf(),
        ensures
            r == if self@.foundation_count() <= usize::MAX {
                self@.foundation_count() as int
            } else {
                usize::MAX as int
            },
    {
        proof {
            self.lemma_pile(StackId::Foundation1);
            self.lemma_pile(StackId::Foundation2);
            self.lemma_pile(StackId::Foundation3);
            self.lemma_pile(StackId::Foundation4);
        }
        let mut total: usize = 0;
        let mut i: usize = 0;
        while i < 4
            invariant
                i <= 4,
                self.foundations@.len() == 4,
                total as int == ({
                    let exact = (if i > 0 {
                        self.foundations@[0].cards@.len()
                    } else {
                        0
                    }) + (if i > 1 {
                        self.foundations@[1].cards@.len()
                    } else {
                        0
                    }) + (if i > 2 {
                        self.foundations@[2].cards@.len()
                    } else {
                        0
                    }) + (if i > 3 {
                        self.foundations@[3].cards@.len()
                    } else {
                        0
                    });
                    if exact <= usize::MAX {
                        exact as int
                    } else {
                        usize::MAX as int
                    }
                }),
            decreases 4 - i,
        {
            let count = self.foundations[i].cards.len();
            total = if count > usize::MAX - total {
                usize::MAX
            } else {
                total + count
            };
            i += 1;
        }
        total
    }

    /// Whether the game is won: all fifty-two cards lie on the
    /// foundations.
    pub fn winner(&self) -> (r: bool)
        requires
            self.wf(),
        ensures
            r == self@.won(),
    {
        self.cards_in_foundation() == 52
    }

    /// The next place for the source cursor, going forward or backward
    /// round the ring, once at most.
    fn active_card(&self, forward: bool) -> (r: Option<Source>)
        requires
            self.wf(),
        ensures
            r == self@.active_from(0, forward),
    {
        let mut stack_id = self.source.stack;
        let mut start = Some(self.source.index);
        let mut k: usize = 0;
        while k < 14
            invariant
                k <= 14,
                self.wf(),
                stack_id == self@.walked(k as nat, forward),
                start == if k == 0 {
                    Some(self@.source.index)
                } else {
                    None
                },
                self@.active_from(0, forward) == self@.active_from(k as nat, forward),
            decreases 14 - k,
        {
            let source_stack = self.get_stack(stack_id);
            let found = if forward {
                source_stack.next_active_card(start)
            } else {
                source_stack.previous_active_card(start)
            };
            match found {
                Some(index) => {
                    return Some(Source { stack: stack_id, index });
                },
                None => {
                    stack_id = if forward {
                        stack_id.next()
                    } else {
                        stack_id.previous()
                    };
                    start = None;
                },
            }
            k += 1;
        }
        None
    }

    /// The next place after the source cursor from which cards can be
    /// picked up, going forward round the ring, once at most.
    pub fn next_active_card(&self) -> (r: Option<Source>)
        requires
            self.wf(),
        ensures
            r == self@.active_from(0, true),
    {
        self.active_card(true)
    }

    /// The last place before the source cursor on which the cursor can
    /// rest, going backward round the ring, once at most.
    pub fn previous_active_card(&self) -> (r: Option<Source>)
        requires
            self.wf(),
        ensures
            r == self@.active_from(0, false),
    {
        self.active_card(false)
    }

    /// The next pile for the target cursor, going forward or backward
    /// round the ring, once at most.
    fn play_location(&self, forward: bool) -> (r: StackId)
        requires
            self.wf(),
        ensures
            r == self@.play_location(forward),
    {
        proof {
            self.lemma_pile(StackId::Hand);
        }
        let mut target = if forward {
            self.target.next()
        } else {
            self.target.previous()
        };
        let mut steps: usize = 13;
        while steps > 0
            invariant
                self.wf(),
                self@.pile(StackId::Hand) == self.in_hand.cards@,
                self@.play_location(forward) == self@.play_location_from(
                    target,
                    steps as nat,
                    forward,
                ),
            decreases steps,
        {
            let target_stack = self.get_stack(target);
            if target_stack.can_play(&self.in_hand) {
                return target;
            }
            target = if forward {
                target.next()
            } else {
                target.previous()
            };
            if target == self.source.stack {
                return target;
            }
            steps -= 1;
        }
        self.target
    }

    /// The next pile after the target cursor on which the hand can be put
    /// down, going forward round the ring, and the source pile if the walk
    /// comes to it first.
    pub fn next_play_location(&self) -> (r: StackId)
        requires
            self.wf(),
        ensures
            r == self@.play_location(true),
    {
        self.play_location(true)
    }

    /// The last pile before the target cursor on which the hand can be put
    /// down, going backward round the ring, and the source pile if the walk
    /// comes to it first.
    pub fn previous_play_location(&self) -> (r: StackId)
        requires
            self.wf(),
        ensures
            r == self@.play_location(false),
    {
        self.play_location(false)
    }

    /// Moves the cursor that is in use one stop on, forward or backward.
    fn go(&mut self, forward: bool)
        requires
            old(self).wf(),
        ensures
            final(self).wf(),
            final(self)@ == old(self)@.gone(forward),
            final(self)@.piles == old(self)@.piles,
            final(self)@.all_cards() == old(self)@.all_cards(),
    {
        proof {
            lemma_cards_are_of_the_piles(old(self)@.gone(forward), old(self)@, 14);
        }
        let ghost before = *self;
        if self.cards_in_hand() {
            self.target = self.play_location(forward);
        } else {
            self.source = match self.active_card(forward) {
                Some(source) => source,
                None => Source::stock(),
            };
        }
        proof {
            assert(self@.piles =~= before@.piles);
        }
    }

    /// Moves the player on: the target cursor if the hand holds cards, the
    /// source cursor if it does not. Never fails.
    pub fn go_next(&mut self) -> (r: Result<(), anyhow::Error>)
        requires
            old(self).wf(),
        ensures
            r is Ok,
            final(self).wf(),
            final(self)@ == old(self)@.gone(true),
            final(self)@.piles == old(self)@.piles,
            final(self)@.all_cards() == old(self)@.all_cards(),
    {
        self.go(true);
        Ok(())
    }

    /// Moves the player back: the target cursor if the hand holds cards,
    /// the source cursor if it does not. Never fails.
    pub fn go_previous(&mut self) -> (r: Result<(), anyhow::Error>)
        requires
            old(self).wf(),
        ensures
            r is Ok,
            final(self).wf(),
            final(self)@ == old(self)@.gone(false),
            final(self)@.piles == old(self)@.piles,
            final(self)@.all_cards() == old(self)@.all_cards(),
    {
        self.go(false);
        Ok(())
    }
}

/// The error type of `anyhow`, which the cursor moves name in their result
/// and never make.
#[verifier::external_type_specification]
#[verifier::external_body]
pub struct ExAnyhowError(anyhow::Error);

/// Of two tables that differ in one pile at most, and there in the cards
/// only, each pile carries the same labels in both, and every other pile
/// holds the same cards in both.
proof fn lemma_other_piles(before: Table, after: Table, id: StackId, other: StackId)
    requires
        forall|other: StackId|
            other != id ==> #[trigger] after.stack(other) == before.stack(other),
        after.stack(id).stack_id == before.stack(id).stack_id,
        after.stack(id).stack_type == before.stack(id).stack_type,
    ensures
        after.stack(other).stack_id == before.stack(other).stack_id,
        after.stack(other).stack_type == before.stack(other).stack_type,
        other != id ==> after.stack(other).cards@ == before.stack(other).cards@,
{
    if other != id {
        assert(after.stack(other) == before.stack(other));
    }
}

/// A table in which one pile may have changed its cards, and nothing else
/// has changed, is well formed if it was, and its view is the old view with
/// that pile replaced.
pub proof fn lemma_one_pile_changed(before: Table, after: Table, id: StackId)
    requires
        before.wf(),
        after.foundations@.len() == 4,
        after.tableaux@.len() == 7,
        forall|other: StackId|
            other != id ==> #[trigger] after.stack(other) == before.stack(other),
        after.stack(id).stack_id == before.stack(id).stack_id,
        after.stack(id).stack_type == before.stack(id).stack_type,
        after.source == before.source,
        after.target == before.target,
    ensures
        after.wf(),
        after@ == before@.with_pile(id, after.stack(id).cards@),
{
    lemma_other_piles(before, after, id, StackId::Stock);
    lemma_other_piles(before, after, id, StackId::Waste);
    lemma_other_piles(before, after, id, StackId::Foundation1);
    lemma_other_piles(before, after, id, StackId::Foundation2);
    lemma_other_piles(before, after, id, StackId::Foundation3);
    lemma_other_piles(before, after, id, StackId::Foundation4);
    lemma_other_piles(before, after, id, StackId::Tableau1);
    lemma_other_piles(before, after, id, StackId::Tableau2);
    lemma_other_piles(before, after, id, StackId::Tableau3);
    lemma_other_piles(before, after, id, StackId::Tableau4);
    lemma_other_piles(before, after, id, StackId::Tableau5);
    lemma_other_piles(before, after, id, StackId::Tableau6);
    lemma_other_piles(before, after, id, StackId::Tableau7);
    lemma_other_piles(before, after, id, StackId::Hand);
    assert forall|i: int| 0 <= i < 4 implies (#[trigger] after.foundations@[i]).stack_id
        == StackId::at(2 + i) && after.foundations@[i].stack_type == StackType::Foundation by {
        assert(before.foundations@[i].stack_id == StackId::at(2 + i));
        if i == 0 {
            assert(after.foundations@[i] == after.stack(StackId::Foundation1));
        } else if i == 1 {
            assert(after.foundations@[i] == after.stack(StackId::Foundation2));
        } else if i == 2 {
            assert(after.foundations@[i] == after.stack(StackId::Foundation3));
        } else {
            assert(after.foundations@[i] == after.stack(StackId::Foundation4));
        }
    }
    assert forall|i: int| 0 <= i < 7 implies (#[trigger] after.tableaux@[i]).stack_id
        == StackId::at(6 + i) && after.tableaux@[i].stack_type == StackType::Tableau by {
        assert(before.tableaux@[i].stack_id == StackId::at(6 + i));
        if i == 0 {
            assert(after.tableaux@[i] == after.stack(StackId::Tableau1));
        } else if i == 1 {
            assert(after.tableaux@[i] == after.stack(StackId::Tableau2));
        } else if i == 2 {
            assert(after.tableaux@[i] == after.stack(StackId::Tableau3));
        } else if i == 3 {
            assert(after.tableaux@[i] == after.stack(StackId::Tableau4));
        } else if i == 4 {
            assert(after.tableaux@[i] == after.stack(StackId::Tableau5));
        } else if i == 5 {
            assert(after.tableaux@[i] == after.stack(StackId::Tableau6));
        } else {
            assert(after.tableaux@[i] == after.stack(StackId::Tableau7));
        }
    }
    assert(after.wf());
    lemma_ring(id);
    let expected = before@.with_pile(id, after.stack(id).cards@);
    assert forall|i: int| 0 <= i < 14 implies after@.piles[i] == expected.piles[i] by {
        let other = StackId::at(i);
        lemma_at_ord(i);
        lemma_other_piles(before, after, id, other);
        assert(after@.piles[i] == after.stack(other).cards@);
        assert(before@.piles[i] == before.stack(other).cards@);
        if other == id {
            assert(i == id.ord());
        }
    }
    assert(after@.piles =~= expected.piles);
}

} // verus!
