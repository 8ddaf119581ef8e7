//! The player at the table: two cursors that walk over the places to pick up
//! from and the piles to put down on, moved by a crank and four buttons.

use crate::ids::{lemma_at_ord, lemma_ring, Source, StackId, StackType};
use crate::laws::lemma_cards_are_of_the_piles;
use crate::play::{lemma_active_from_pile_piles, ActiveCardIterator};
use crate::table::{Table, TableView};
use vstd::prelude::*;

verus! {

/// How far the crank is turned before the cursor moves.
pub const CRANK_THRESHHOLD: i32 = 10;

impl TableView {
    /// The places on which the source cursor stops: the bottom of the
    /// stock, then every place from which cards can be picked up.
    pub open spec fn stops(self) -> Seq<Source> {
        seq![Source { stack: StackId::Stock, index: 0 }] + self.active_sources()
    }

    /// Whether the target cursor stops on a pile: on the pile of the source
    /// cursor and on every pile that accepts the hand.
    pub open spec fn is_target(self, id: StackId) -> bool {
        id == self.source.stack || self.accepts_hand(id)
    }

    /// The piles from position `i` of the order on on which the target
    /// cursor stops.
    pub open spec fn targets_from(self, i: int) -> Seq<StackId>
        decreases 14 - i,
    {
        if i < 0 || i >= 14 {
            Seq::empty()
        } else if self.is_target(StackId::at(i)) {
            seq![StackId::at(i)] + self.targets_from(i + 1)
        } else {
            self.targets_from(i + 1)
        }
    }

    /// The piles on which the target cursor stops, in the order of their
    /// names.
    pub open spec fn targets(self) -> Seq<StackId> {
        self.targets_from(0)
    }

    /// The table after the hand was put down on the pile under the target
    /// cursor: the source cursor stands where the lowest card of the hand
    /// landed.
    pub open spec fn hand_put_on_target(self) -> TableView {
        self.put(self.source.stack, self.target).with_cursors(
            Source { stack: self.target, index: self.landing(self.target) as usize },
            self.target,
        )
    }

    /// The table after the player, with an empty hand, chose the place
    /// under the source cursor: the stock deals; waste and foundations give
    /// their top card to the hand; a tableau gives the cards from the cursor
    /// up. The target cursor then stands on the pile of the source cursor.
    pub open spec fn chosen(self) -> TableView {
        let acted = match self.source.stack.spec_kind() {
            StackType::Stock => self.dealt(),
            StackType::Waste | StackType::Foundation => self.top_taken(self.source.stack),
            StackType::Tableau => self.taken(self.source.stack, self.source.index as int),
            StackType::Hand => self,
        };
        acted.with_cursors(acted.source, acted.source.stack)
    }
}

/// The position of the first entry of a list of piles that is the given
/// pile, and 0 if the list does not hold it.
pub open spec fn first_position(piles: Seq<StackId>, id: StackId) -> usize {
    match piles.index_of_first(id) {
        Some(i) => i as usize,
        None => 0,
    }
}

/// What a player holds, as plain values.
pub struct PlayerView {
    pub table: TableView,
    pub active_cards: Seq<Source>,
    pub source_index: usize,
    pub targets: Seq<StackId>,
    pub target_index: usize,
    pub crank_threshhold: i32,
}

impl PlayerView {
    /// The list of stops is not empty, and while cards are in hand the
    /// target cursor stands on an entry of the list of targets.
    pub open spec fn wf(self) -> bool {
        &&& self.table.wf()
        &&& self.active_cards.len() > 0
        &&& self.table.pile(StackId::Hand).len() > 0 ==> self.target_index < self.targets.len()
    }

    /// The player with the list of stops made anew from the table.
    pub open spec fn with_stops(self) -> PlayerView {
        PlayerView { active_cards: self.table.stops(), ..self }
    }

    /// The player with the list of targets made anew from the table, the
    /// target cursor on the pile of the source cursor.
    pub open spec fn with_targets(self) -> PlayerView {
        PlayerView {
            targets: self.table.targets(),
            target_index: first_position(self.table.targets(), self.table.source.stack),
            ..self
        }
    }

    /// The player after a step forward. With cards in hand the target
    /// cursor moves to the next target, from the last to the first. With an
    /// empty hand the source cursor moves to the next stop, from the last,
    /// and from any position beyond the list, to the first.
    pub open spec fn gone_next(self) -> PlayerView {
        if self.table.pile(StackId::Hand).len() > 0 {
            let index = if self.target_index + 1 == self.targets.len() {
                0
            } else {
                (self.target_index + 1) as usize
            };
            PlayerView {
                target_index: index,
                table: self.table.with_cursors(self.table.source, self.targets[index as int]),
                ..self
            }
        } else {
            let index = if self.source_index + 1 >= self.active_cards.len() {
                0
            } else {
                (self.source_index + 1) as usize
            };
            PlayerView {
                source_index: index,
                table: self.table.with_cursors(self.active_cards[index as int], self.table.target),
                ..self
            }
        }
    }

    /// The player after a step backward. With cards in hand the target
    /// cursor moves to the target before, from the first to the last. With
    /// an empty hand the source cursor moves to the stop before, from the
    /// first, and from any position beyond the list, to the last.
    pub open spec fn gone_previous(self) -> PlayerView {
        if self.table.pile(StackId::Hand).len() > 0 {
            let index = if self.target_index == 0 {
                (self.targets.len() - 1) as usize
            } else {
                (self.target_index - 1) as usize
            };
            PlayerView {
                target_index: index,
                table: self.table.with_cursors(self.table.source, self.targets[index as int]),
                ..self
            }
        } else {
            let index = if self.source_index == 0 || self.source_index > self.active_cards.len() {
                (self.active_cards.len() - 1) as usize
            } else {
                (self.source_index - 1) as usize
            };
            PlayerView {
                source_index: index,
                table: self.table.with_cursors(self.active_cards[index as int], self.table.target),
                ..self
            }
        }
    }

    /// The player after the crank was turned by `change`. The turns add
    /// up; past the threshold forward the cursor steps forward and the sum
    /// starts again at the threshold backward, and the other way round.
    pub open spec fn cranked(self, change: i32) -> PlayerView {
        let sum = self.crank_threshhold + change;
        if sum > CRANK_THRESHHOLD {
            PlayerView { crank_threshhold: (-CRANK_THRESHHOLD) as i32, ..self.gone_next() }
        } else if sum < -CRANK_THRESHHOLD {
            PlayerView { crank_threshhold: CRANK_THRESHHOLD, ..self.gone_previous() }
        } else {
            PlayerView { crank_threshhold: sum as i32, ..self }
        }
    }

    /// The player after a choice. With cards in hand they are put down
    /// under the target cursor, and the stops are made anew. With an empty
    /// hand the place under the source cursor is chosen, the stops are made
    /// anew if that was the stock, and the targets are made anew.
    pub open spec fn chose(self) -> PlayerView {
        if self.table.pile(StackId::Hand).len() > 0 {
            PlayerView { table: self.table.hand_put_on_target(), ..self }.with_stops()
        } else {
            let acted = PlayerView { table: self.table.chosen(), ..self };
            if self.table.source.stack is Stock {
                acted.with_stops().with_targets()
            } else {
                acted.with_targets()
            }
        }
    }

    /// The player after the buttons were pushed: a choice if one of the two
    /// round buttons is among them, else a step backward for the left
    /// button, else a step forward for the right one.
    pub open spec fn pressed(self, choose: bool, left: bool, right: bool) -> PlayerView {
        if choose {
            self.chose()
        } else if left {
            self.gone_previous()
        } else if right {
            self.gone_next()
        } else {
            self
        }
    }
}

/// A player at a table: the table, the stops of the source cursor and the
/// targets of the target cursor with the position of each cursor in its
/// list, and how far the crank is turned.
pub struct Player {
    pub table: Table,
    pub active_cards: Vec<Source>,
    pub source_index: usize,
    pub targets: Vec<StackId>,
    pub target_index: usize,
    pub crank_threshhold: i32,
}

impl View for Player {
    type V = PlayerView;

    /// The view of the table, and the lists and counters as they are.
    open spec fn view(&self) -> PlayerView {
        PlayerView {
            table: self.table@,
            active_cards: self.active_cards@,
            source_index: self.source_index,
            targets: self.targets@,
            target_index: self.target_index,
            crank_threshhold: self.crank_threshhold,
        }
    }
}

/// The stops of the source cursor on a table: the bottom of the stock, then
/// every place from which cards can be picked up.
pub fn active_cards(table: &Table) -> (stops: Vec<Source>)
    requires
        table.wf(),
    ensures
        stops@ == table@.stops(),
{
    let mut stops: Vec<Source> = Vec::new();
    stops.push(Source::stock());
    let mut walk = ActiveCardIterator::new(table);
    loop
        invariant
            walk.wf(),
            stops@ + walk.remaining() == table@.stops(),
        decreases walk.remaining().len(),
    {
        let ghost before = walk.remaining();
        match walk.next() {
            Some(source) => {
                stops.push(source);
                proof {
                    assert(stops@ + walk.remaining() =~= stops@.drop_last() + before);
                }
            },
            None => {
                proof {
                    assert(stops@ =~= stops@ + walk.remaining());
                }
                return stops;
            },
        }
    }
}

impl Player {
    /// The table is well formed, and so is what the player holds.
    pub open spec fn wf(&self) -> bool {
        self.table.wf() && self@.wf()
    }

    /// A player at a table, both cursors at rest and no target listed yet.
    pub fn new(table: Table) -> (player: Player)
        requires
            table.wf(),
        ensures
            table@.pile(StackId::Hand).len() == 0 ==> player.wf(),
            player@ == (PlayerView {
                table: table@,
                active_cards: table@.stops(),
                source_index: 0,
                targets: Seq::empty(),
                target_index: 0,
                crank_threshhold: 0,
            }),
    {
        let active_cards = active_cards(&table);
        Player {
            table,
            active_cards,
            source_index: 0,
            targets: Vec::new(),
            target_index: 0,
            crank_threshhold: 0,
        }
    }

    /// Makes the list of stops anew from the table.
    pub fn update_active_cards(&mut self)
        requires
            old(self).table.wf(),
        ensures
            final(self).table == old(self).table,
            final(self)@ == old(self)@.with_stops(),
            final(self)@.active_cards.len() > 0,
    {
        self.active_cards = active_cards(&self.table);
    }

    /// Makes the list of targets anew from the table, and puts the target
    /// cursor on the pile of the source cursor.
    pub fn update_targets(&mut self)
        requires
            old(self).table.wf(),
        ensures
            final(self).table == old(self).table,
            final(self)@ == old(self)@.with_targets(),
            final(self)@.target_index < final(self)@.targets.len(),
    {
        let source = self.table.source;
        let mut targets: Vec<StackId> = Vec::new();
        let mut i: usize = 0;
        proof {
            self.table.lemma_pile(StackId::Hand);
        }
        while i < 14
            invariant
                i <= 14,
                self.table.wf(),
                self.table == old(self).table,
                source == self.table.source,
                self.table@.pile(StackId::Hand) == self.table.in_hand.cards@,
                targets@ + self.table@.targets_from(i as int) == self.table@.targets(),
            decreases 14 - i,
        {
            let stack_id = StackId::from_index(i);
            let ghost before = targets@;
            proof {
                lemma_ring(stack_id);
                lemma_at_ord(i as int);
            }
            if stack_id == source.stack || self.table.get_stack(stack_id).can_play(
                &self.table.in_hand,
            ) {
                targets.push(stack_id);
                proof {
                    assert(targets@ + self.table@.targets_from(i + 1) =~= before
                        + self.table@.targets_from(i as int));
                }
            }
            i += 1;
        }
        proof {
            assert(targets@ =~= targets@ + self.table@.targets_from(14));
            targets@.index_of_first_ensures(source.stack);
            lemma_targets_hold_the_source(self.table@, 0);
        }
        let mut position: usize = 0;
        while position < targets.len() && targets[position] != source.stack
            invariant
                position <= targets@.len(),
                forall|j: int| 0 <= j < position ==> targets@[j] != source.stack,
            decreases targets@.len() - position,
        {
            position += 1;
        }
        self.target_index = if position < targets.len() {
            position
        } else {
            0
        };
        self.targets = targets;
    }

    /// Steps backward: with cards in hand the target cursor, else the
    /// source cursor.
    pub fn go_previous(&mut self)
        requires
            old(self).wf(),
        ensures
            final(self).wf(),
            final(self)@ == old(self)@.gone_previous(),
            final(self)@.table.piles == old(self)@.table.piles,
            final(self)@.table.all_cards() == old(self)@.table.all_cards(),
    {
        let ghost before = *self;
        if self.table.cards_in_hand() {
            if self.target_index == 0 {
                self.target_index = self.targets.len() - 1;
            } else {
                self.target_index -= 1;
            }
            self.table.target = self.targets[self.target_index];
        } else {
            if self.source_index == 0 || self.source_index > self.active_cards.len() {
                self.source_index = self.active_cards.len() - 1;
            } else {
                self.source_index -= 1;
            }
            self.table.source = self.active_cards[self.source_index];
        }
        proof {
            assert(self.table@.piles =~= before.table@.piles);
            lemma_cards_are_of_the_piles(self.table@, before.table@, 14);
        }
    }

    /// Steps forward: with cards in hand the target cursor, else the
    /// source cursor.
    pub fn go_next(&mut self)
        requires
            old(self).wf(),
        ensures
            final(self).wf(),
            final(self)@ == old(self)@.gone_next(),
            final(self)@.table.piles == old(self)@.table.piles,
            final(self)@.table.all_cards() == old(self)@.table.all_cards(),
    {
        let ghost before = *self;
        if self.table.cards_in_hand() {
            let max_index = self.targets.len() - 1;
            if self.target_index == max_index {
                self.target_index = 0;
            } else {
                self.target_index += 1;
            }
            self.table.target = self.targets[self.target_index];
        } else {
            let max_index = self.active_cards.len() - 1;
            if self.source_index >= max_index {
                self.source_index = 0;
            } else {
                self.source_index += 1;
            }
            self.table.source = self.active_cards[self.source_index];
        }
        proof {
            assert(self.table@.piles =~= before.table@.piles);
            lemma_cards_are_of_the_piles(self.table@, before.table@, 14);
        }
    }

    /// Takes a turn of the crank.
    pub fn check_crank(&mut self, change: i32)
        requires
            old(self).wf(),
            i32::MIN <= old(self).crank_threshhold + change <= i32::MAX,
        ensures
            final(self).wf(),
            final(self)@ == old(self)@.cranked(change),
            final(self)@.table.piles == old(self)@.table.piles,
            final(self)@.table.all_cards() == old(self)@.table.all_cards(),
    {
        self.crank_threshhold += change;
        if self.crank_threshhold > CRANK_THRESHHOLD {
            self.go_next();
            self.crank_threshhold = -CRANK_THRESHHOLD;
        } else if self.crank_threshhold < -CRANK_THRESHHOLD {
            self.go_previous();
            self.crank_threshhold = CRANK_THRESHHOLD;
        }
    }

    /// Takes a push of the buttons: `choose` says whether one of the two
    /// round buttons was pushed, `left` and `right` whether those were.
    pub fn check_buttons(&mut self, choose: bool, left: bool, right: bool)
        requires
            old(self).wf(),
        ensures
            final(self).wf(),
            final(self)@ == old(self)@.pressed(choose, left, right),
            final(self)@.table.all_cards() == old(self)@.table.all_cards(),
    {
        if choose {
            if self.table.cards_in_hand() {
                self.table.put_hand_on_target();
                self.update_active_cards();
                proof {
                    crate::laws::lemma_hand_is_put_down(old(self).table@);
                }
            } else {
                let ghost before = self.table;
                match self.table.source.stack {
                    StackId::Stock => {
                        self.table.deal_from_stock();
                        self.update_active_cards();
                    },
                    StackId::Waste
                    | StackId::Foundation1
                    | StackId::Foundation2
                    | StackId::Foundation3
                    | StackId::Foundation4 => {
                        self.table.take_top_card_from_stack(self.table.source.stack);
                    },
                    StackId::Tableau1
                    | StackId::Tableau2
                    | StackId::Tableau3
                    | StackId::Tableau4
                    | StackId::Tableau5
                    | StackId::Tableau6
                    | StackId::Tableau7 => {
                        self.table.take_selected_cards_from_stack(
                            self.table.source.stack,
                            self.table.source.index,
                        );
                    },
                    StackId::Hand => {},
                }
                let ghost acted = self.table;
                self.table.target = self.table.source.stack;
                proof {
                    assert(self.table@.piles =~= acted@.piles);
                    assert(self.table@ == before@.chosen());
                    lemma_active_from_pile_piles(acted@, self.table@, 0);
                    lemma_cards_are_of_the_piles(self.table@, acted@, 14);
                }
                self.update_targets();
            }
        } else if left {
            self.go_previous();
        } else if right {
            self.go_next();
        }
    }
}

/// The pile of the source cursor is among the targets.
pub proof fn lemma_targets_hold_the_source(t: TableView, from: int)
    requires
        0 <= from <= t.source.stack.ord(),
    ensures
        t.targets_from(from).contains(t.source.stack),
    decreases 14 - from,
{
    lemma_ring(t.source.stack);
    let here = t.targets_from(from);
    if from == t.source.stack.ord() {
        assert(here[0] == t.source.stack);
    } else {
        lemma_targets_hold_the_source(t, from + 1);
        let rest = t.targets_from(from + 1);
        let k = choose|k: int| 0 <= k < rest.len() && rest[k] == t.source.stack;
        if t.is_target(StackId::at(from)) {
            assert(here[k + 1] == t.source.stack);
        } else {
            assert(here[k] == t.source.stack);
        }
    }
}

} // verus!
