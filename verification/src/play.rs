//! The plays of the game, and the list of the plays that a table allows.

use crate::card::Card;
use crate::ids::{lemma_at_ord, lemma_ring, Source, StackId, StackType};
use crate::stack::{accepts_run, first_face_up, next_active};
use crate::table::{Table, TableView};
use vstd::prelude::*;

verus! {

/// One step of the game.
#[derive(Clone, Copy, Debug, PartialEq, Eq, Structural, Hash)]
pub enum Play {
    /// The deal that set the table up. It labels the start of a game and is
    /// never played.
    Setup,
    /// Deal from the stock to the waste.
    DrawFromStock,
    /// Turn the waste over into the empty stock.
    RecycleWaste,
    /// Move the cards of a pile from a place up onto another pile.
    MoveCards(Source, StackId),
}

impl TableView {
    /// Whether cards can be picked up from position `i` of a pile: never
    /// from the stock, from waste and foundations only the top card, from
    /// the other piles every face-up card.
    pub open spec fn is_active(self, id: StackId, i: int) -> bool {
        &&& 0 <= i < self.pile(id).len()
        &&& match id.spec_kind() {
            StackType::Stock => false,
            StackType::Waste | StackType::Foundation => i == self.pile(
                id,
            ).len() - 1,
            _ => self.pile(id)[i].face_up,
        }
    }

    /// The places of a pile from position `from` up from which cards can be
    /// picked up, lowest first.
    pub open spec fn active_in(self, id: StackId, from: int) -> Seq<Source>
        decreases self.pile(id).len() - from,
    {
        if from < 0 || from >= self.pile(id).len() {
            Seq::empty()
        } else if self.is_active(id, from) {
            seq![Source { stack: id, index: from as usize }] + self.active_in(id, from + 1)
        } else {
            self.active_in(id, from + 1)
        }
    }

    /// The places from which cards can be picked up in the piles from
    /// position `p` of the ring on, in the order of the piles.
    pub open spec fn active_from_pile(self, p: int) -> Seq<Source>
        decreases 13 - p,
    {
        if p < 0 || p >= 13 {
            Seq::empty()
        } else {
            self.active_in(StackId::at(p), 0) + self.active_from_pile(p + 1)
        }
    }

    /// Every place on the table from which cards can be picked up, pile by
    /// pile from the stock to the last tableau, and within a pile from the
    /// bottom up.
    pub open spec fn active_sources(self) -> Seq<Source> {
        self.active_from_pile(0)
    }

    /// Whether a pile takes a run of `count` cards whose lowest card is
    /// `card`.
    pub open spec fn takes(self, onto: StackId, card: Card, count: nat) -> bool {
        accepts_run(onto.spec_kind(), onto, self.pile(onto), card, count)
    }

    /// The moves of a run of `count` cards, whose lowest card is `card` and
    /// lies at `source`, onto the piles from position `t` of the ring on
    /// that take it.
    pub open spec fn moves_onto(self, source: Source, card: Card, count: nat, t: int) -> Seq<Play>
        decreases 13 - t,
    {
        if t < 2 || t >= 13 {
            Seq::empty()
        } else if self.takes(StackId::at(t), card, count) {
            seq![Play::MoveCards(source, StackId::at(t))] + self.moves_onto(
                source,
                card,
                count,
                t + 1,
            )
        } else {
            self.moves_onto(source, card, count, t + 1)
        }
    }

    /// How many cards are picked up with the card at `source`: that card
    /// and all above it.
    pub open spec fn run_length(self, source: Source) -> nat {
        if source.index < self.pile(source.stack).len() {
            (self.pile(source.stack).len() - source.index) as nat
        } else {
            0
        }
    }

    /// The moves of the cards picked up at `source`: one onto each
    /// foundation and tableau that takes them, foundations first.
    pub open spec fn moves_at(self, source: Source) -> Seq<Play> {
        self.moves_onto(
            source,
            self.pile(source.stack)[source.index as int],
            self.run_length(source),
            2,
        )
    }

    /// The moves from each of `sources` in turn.
    pub open spec fn moves_of(self, sources: Seq<Source>) -> Seq<Play>
        decreases sources.len(),
    {
        if sources.len() == 0 {
            Seq::empty()
        } else {
            self.moves_at(sources[0]) + self.moves_of(sources.drop_first())
        }
    }

    /// The play that the stock offers: a draw if it holds cards, else a
    /// recycle if the waste does, else none.
    pub open spec fn stock_plays(self) -> Seq<Play> {
        if self.pile(StackId::Stock).len() > 0 {
            seq![Play::DrawFromStock]
        } else if self.pile(StackId::Waste).len() > 0 {
            seq![Play::RecycleWaste]
        } else {
            Seq::empty()
        }
    }

    /// The plays that the table allows, in the order in which they are
    /// offered: what the stock offers, then the moves from every place from
    /// which cards can be picked up.
    pub open spec fn plays(self) -> Seq<Play> {
        self.stock_plays() + self.moves_of(self.active_sources())
    }

    /// Whether the rules allow a play on this table. A draw needs cards in
    /// the stock; a recycle needs an empty stock and cards in the waste; a
    /// move needs a place from which cards can be picked up, in one of the
    /// thirteen piles, and a foundation or a tableau that takes the cards
    /// picked up there. The setup is never played.
    #[verifier::opaque]
    pub open spec fn allows(self, play: Play) -> bool {
        match play {
            Play::Setup => false,
            Play::DrawFromStock => self.pile(StackId::Stock).len() > 0,
            Play::RecycleWaste => self.pile(StackId::Stock).len() == 0 && self.pile(
                StackId::Waste,
            ).len() > 0,
            Play::MoveCards(source, target) => {
                &&& source.stack.ord() < 13
                &&& self.is_active(source.stack, source.index as int)
                &&& 2 <= target.ord() < 13
                &&& self.takes(
                    target,
                    self.pile(source.stack)[source.index as int],
                    self.run_length(source),
                )
            },
        }
    }

    /// No pile holds more cards than a position can count.
    pub open spec fn countable(self) -> bool {
        forall|i: int| 0 <= i < 14 ==> (#[trigger] self.piles[i]).len() <= usize::MAX
    }
}

/// Walks through the places of a table from which cards can be picked up.
pub struct ActiveCardIterator<'a> {
    table: &'a Table,
    stack_id: Option<StackId>,
    index: Option<usize>,
}

impl<'a> ActiveCardIterator<'a> {
    /// The table that is walked through.
    pub closed spec fn table(&self) -> Table {
        *self.table
    }

    /// The table that is walked through is well formed, and the walk is on
    /// one of its thirteen piles or at its end.
    pub closed spec fn wf(&self) -> bool {
        &&& self.table.wf()
        &&& match self.stack_id {
            Some(id) => id.ord() < 13,
            None => true,
        }
    }

    /// The places that are still to come.
    pub closed spec fn remaining(&self) -> Seq<Source> {
        match self.stack_id {
            None => Seq::empty(),
            Some(id) => {
                let from: int = match self.index {
                    Some(i) => i + 1,
                    None => 0,
                };
                self.table@.active_in(id, from) + self.table@.active_from_pile(id.ord() + 1)
            },
        }
    }

    /// Starts a walk at the stock.
    pub fn new(table: &'a Table) -> (r: Self)
        requires
            table.wf(),
        ensures
            r.wf(),
            r.table() == *table,
            r.remaining() == table@.active_sources(),
    {
        proof {
            reveal_with_fuel(TableView::active_from_pile, 2);
        }
        Self { table, stack_id: Some(StackId::Stock), index: None }
    }

    /// The next place, or `None` at the end of the walk.
    pub fn next(&mut self) -> (r: Option<Source>)
        requires
            old(self).wf(),
        ensures
            final(self).wf(),
            final(self).table() == old(self).table(),
            match r {
                Some(source) => old(self).remaining() == seq![source] + final(self).remaining()
                    && old(self).table()@.is_active(source.stack, source.index as int),
                None => old(self).remaining() == Seq::<Source>::empty() && final(self).remaining()
                    == Seq::<Source>::empty(),
            },
    {
        loop
            invariant
                self.wf(),
                self.table() == old(self).table(),
                self.remaining() == old(self).remaining(),
            decreases
                    match self.stack_id {
                        Some(id) => 14 - id.ord(),
                        None => 0,
                    },
        {
            match self.stack_id {
                None => {
                    return None;
                },
                Some(stack_id) => {
                    let stack = self.table.get_stack(stack_id);
                    let next_index = stack.next_active_card(self.index);
                    proof {
                        assert(self.table@.pile(stack_id).len() == stack.cards.len());
                        lemma_active_in(self.table@, stack_id, self.index);
                    }
                    match next_index {
                        Some(index) => {
                            self.index = next_index;
                            proof {
                                assert(old(self).remaining() =~= seq![
                                    Source { stack: stack_id, index },
                                ] + self.remaining());
                            }
                            return Some(Source { stack: stack_id, index });
                        },
                        None => {
                            let ghost p = stack_id.ord();
                            self.stack_id = stack_id.next_no_wrap();
                            self.index = None;
                            proof {
                                lemma_at_ord(p + 1);
                                if p + 1 < 13 {
                                    assert(self.table@.active_from_pile(p + 1)
                                        == self.table@.active_in(StackId::at(p + 1), 0)
                                        + self.table@.active_from_pile(p + 2));
                                } else {
                                    assert(self.table@.active_from_pile(p + 1) =~= Seq::empty());
                                }
                                assert(self.remaining() =~= old(self).remaining());
                            }
                        },
                    }
                },
            }
        }
    }
}

/// Walks through the piles that take the cards picked up at one place.
pub struct CardPlayIterator<'a> {
    table: &'a Table,
    card: &'a Card,
    source: Source,
    count: usize,
    target: Option<StackId>,
}

impl<'a> CardPlayIterator<'a> {
    /// The table that is walked through.
    pub closed spec fn table(&self) -> Table {
        *self.table
    }

    /// The table that is walked through is well formed, and the walk is on
    /// a foundation or a tableau or at its end.
    pub closed spec fn wf(&self) -> bool {
        &&& self.table.wf()
        &&& match self.target {
            Some(id) => 2 <= id.ord() < 13,
            None => true,
        }
    }

    /// The moves that are still to come.
    pub closed spec fn remaining(&self) -> Seq<Play> {
        match self.target {
            None => Seq::empty(),
            Some(id) => self.table@.moves_onto(
                self.source,
                *self.card,
                self.count as nat,
                id.ord(),
            ),
        }
    }

    /// Starts a walk at the first foundation, for the cards that are picked
    /// up at `active_card`, of which `card` is the lowest.
    pub fn new(table: &'a Table, card: &'a Card, active_card: Source) -> (r: Self)
        requires
            table.wf(),
        ensures
            r.wf(),
            r.table() == *table,
            r.remaining() == table@.moves_onto(
                active_card,
                *card,
                table@.run_length(active_card),
                2,
            ),
    {
        let stack = table.get_stack(active_card.stack);
        let count: usize = if active_card.index < stack.cards.len() {
            stack.cards.len() - active_card.index
        } else {
            0
        };
        Self { table, card, source: active_card, count, target: Some(StackId::Foundation1) }
    }

    /// The next move, or `None` at the end of the walk.
    pub fn next(&mut self) -> (r: Option<Play>)
        requires
            old(self).wf(),
        ensures
            final(self).wf(),
            final(self).table() == old(self).table(),
            match r {
                Some(play) => old(self).remaining() == seq![play] + final(self).remaining(),
                None => old(self).remaining() == Seq::<Play>::empty() && final(self).remaining()
                    == Seq::<Play>::empty(),
            },
    {
        loop
            invariant
                self.wf(),
                self.table() == old(self).table(),
                self.remaining() == old(self).remaining(),
            decreases
                    match self.target {
                        Some(id) => 14 - id.ord(),
                        None => 0,
                    },
        {
            match self.target {
                None => {
                    return None;
                },
                Some(target) => {
                    let ghost before = self.remaining();
                    let target_stack = self.table.get_stack(target);
                    let accepts = target_stack.can_play_card(self.card, self.count);
                    self.target = target.next_no_wrap();
                    proof {
                        lemma_ring(target);
                        lemma_at_ord(target.ord() + 1);
                        if target.ord() + 1 >= 13 {
                            assert(self.table@.moves_onto(
                                self.source,
                                *self.card,
                                self.count as nat,
                                target.ord() + 1,
                            ) =~= Seq::empty());
                        }
                    }
                    if accepts {
                        proof {
                            assert(before =~= seq![Play::MoveCards(self.source, target)]
                                + self.remaining());
                        }
                        return Some(Play::MoveCards(self.source, target));
                    }
                    proof {
                        assert(before =~= self.remaining());
                    }
                },
            }
        }
    }
}

/// Where a walk through the plays of a table stands.
pub enum PlayIteratorPhase<'a> {
    /// Nothing was looked at yet.
    Start,
    /// The stock is next.
    Stock,
    /// The moves are next: the places still to come and, if a place is
    /// being worked on, the piles still to come for it.
    ActiveCards(ActiveCardIterator<'a>, Option<CardPlayIterator<'a>>),
    /// The walk is over.
    Done,
}

/// Walks through the plays that a table allows, in the order in which they
/// are offered.
pub struct PlayIterator<'a> {
    table: &'a Table,
    phase: PlayIteratorPhase<'a>,
}

impl<'a> PlayIterator<'a> {
    /// The table that is walked through.
    pub closed spec fn table(&self) -> Table {
        *self.table
    }

    /// The table that is walked through is well formed, and the walks
    /// within this walk are walks through it.
    pub closed spec fn wf(&self) -> bool {
        &&& self.table.wf()
        &&& match self.phase {
            PlayIteratorPhase::ActiveCards(sources, moves) => {
                &&& sources.wf()
                &&& sources.table() == *self.table
                &&& match moves {
                    Some(m) => m.wf() && m.table() == *self.table,
                    None => true,
                }
            },
            _ => true,
        }
    }

    /// The plays that are still to come.
    pub closed spec fn remaining(&self) -> Seq<Play> {
        match self.phase {
            PlayIteratorPhase::Start | PlayIteratorPhase::Stock => self.table@.plays(),
            PlayIteratorPhase::ActiveCards(sources, moves) => match moves {
                Some(m) => m.remaining() + self.table@.moves_of(sources.remaining()),
                None => self.table@.moves_of(sources.remaining()),
            },
            PlayIteratorPhase::Done => Seq::empty(),
        }
    }

    /// How far the walk is from its end, at most.
    closed spec fn distance(&self) -> nat {
        match self.phase {
            PlayIteratorPhase::Start => 2 * self.table@.active_sources().len() + 4,
            PlayIteratorPhase::Stock => 2 * self.table@.active_sources().len() + 3,
            PlayIteratorPhase::ActiveCards(sources, moves) => 2 * sources.remaining().len() + (
            if moves is Some {
                2nat
            } else {
                1nat
            }),
            PlayIteratorPhase::Done => 0,
        }
    }

    /// Starts a walk through the plays of a table.
    pub fn new(table: &'a Table) -> (r: Self)
        requires
            table.wf(),
        ensures
            r.wf(),
            r.table() == *table,
            r.remaining() == table@.plays(),
    {
        Self { table, phase: PlayIteratorPhase::Start }
    }

    /// The next play, or `None` at the end of the walk.
    pub fn next(&mut self) -> (r: Option<Play>)
        requires
            old(self).wf(),
        ensures
            final(self).wf(),
            final(self).table() == old(self).table(),
            match r {
                Some(play) => old(self).remaining() == seq![play] + final(self).remaining(),
                None => old(self).remaining() == Seq::<Play>::empty() && final(self).remaining()
                    == Seq::<Play>::empty(),
            },
    {
        loop
            invariant
                self.wf(),
                self.table() == old(self).table(),
                self.remaining() == old(self).remaining(),
            decreases self.distance(),
        {
            let ghost before = self.remaining();
            let mut phase = PlayIteratorPhase::Done;
            std::mem::swap(&mut phase, &mut self.phase);
            match phase {
                PlayIteratorPhase::Start => {
                    self.phase = PlayIteratorPhase::Stock;
                },
                PlayIteratorPhase::Stock => {
                    let sources = ActiveCardIterator::new(self.table);
                    self.phase = PlayIteratorPhase::ActiveCards(sources, None);
                    if self.table.has_cards_in_stock() {
                        proof {
                            assert(before =~= seq![Play::DrawFromStock] + self.remaining());
                        }
                        return Some(Play::DrawFromStock);
                    }
                    if self.table.has_cards_in_waste() {
                        proof {
                            assert(before =~= seq![Play::RecycleWaste] + self.remaining());
                        }
                        return Some(Play::RecycleWaste);
                    }
                    proof {
                        assert(before =~= self.remaining());
                    }
                },
                PlayIteratorPhase::ActiveCards(mut sources, moves) => {
                    match moves {
                        Some(mut card_plays) => {
                            let play = card_plays.next();
                            match play {
                                None => {
                                    self.phase = PlayIteratorPhase::ActiveCards(sources, None);
                                    proof {
                                        assert(before =~= self.remaining());
                                    }
                                },
                                Some(p) => {
                                    self.phase = PlayIteratorPhase::ActiveCards(
                                        sources,
                                        Some(card_plays),
                                    );
                                    proof {
                                        assert(before =~= seq![p] + self.remaining());
                                    }
                                    return play;
                                },
                            }
                        },
                        None => {
                            let ghost sources_before = sources.remaining();
                            match sources.next() {
                                Some(active_card) => {
                                    let stack = self.table.get_stack(active_card.stack);
                                    let card = &stack.cards[active_card.index];
                                    let card_plays = CardPlayIterator::new(
                                        self.table,
                                        card,
                                        active_card,
                                    );
                                    proof {
                                        assert(sources_before.drop_first()
                                            =~= sources.remaining());
                                    }
                                    self.phase = PlayIteratorPhase::ActiveCards(
                                        sources,
                                        Some(card_plays),
                                    );
                                },
                                None => {
                                    self.phase = PlayIteratorPhase::Done;
                                    proof {
                                        assert(before =~= Seq::<Play>::empty());
                                    }
                                    return None;
                                },
                            }
                        },
                    }
                },
                PlayIteratorPhase::Done => {
                    return None;
                },
            }
        }
    }
}

/// The plays that a table allows, in the order in which they are offered:
/// a draw if the stock holds cards, else a recycle if the waste does; then,
/// for every place from which cards can be picked up, pile by pile and from
/// the bottom up, a move onto each foundation and each tableau that takes
/// the cards.
pub fn generate_plays(table: &Table) -> (plays: Vec<Play>)
    requires
        table.wf(),
    ensures
        plays@ == table@.plays(),
{
    let mut plays: Vec<Play> = Vec::new();
    let mut walk = PlayIterator::new(table);
    loop
        invariant
            walk.wf(),
            plays@ + walk.remaining() == table@.plays(),
        decreases walk.remaining().len(),
    {
        let ghost before = walk.remaining();
        match walk.next() {
            Some(play) => {
                plays.push(play);
                proof {
                    assert(plays@ + walk.remaining() =~= plays@.drop_last() + before);
                }
            },
            None => {
                proof {
                    assert(plays@ =~= plays@ + walk.remaining());
                }
                return plays;
            },
        }
    }
}

/// Where no place in a stretch of a pile offers cards, the places from its
/// start on are the places from its end on.
pub proof fn lemma_active_gap(t: TableView, id: StackId, from: int, to: int)
    requires
        0 <= from <= to <= t.pile(id).len(),
        forall|j: int| from <= j < to ==> !t.is_active(id, j),
    ensures
        t.active_in(id, from) == t.active_in(id, to),
    decreases to - from,
{
    if from < to {
        lemma_active_gap(t, id, from + 1, to);
    }
}

/// The lowest face-up card at or above a position is face up, and no card
/// between the position and it is.
pub proof fn lemma_first_face_up(cards: Seq<Card>, from: int)
    requires
        0 <= from <= cards.len(),
    ensures
        from <= first_face_up(cards, from) <= cards.len(),
        first_face_up(cards, from) < cards.len() ==> cards[first_face_up(cards, from)].face_up,
        forall|j: int| from <= j < first_face_up(cards, from) ==> !cards[j].face_up,
    decreases cards.len() - from,
{
    if from < cards.len() && !cards[from].face_up {
        lemma_first_face_up(cards, from + 1);
    }
}

/// What the scan of a pile finds after `start` is the first place from
/// which cards can be picked up: the places from there on are that place
/// and those after it, and there are none if the scan finds nothing.
pub proof fn lemma_active_in(t: TableView, id: StackId, start: Option<usize>)
    requires
        t.wf(),
        t.pile(id).len() <= usize::MAX,
    ensures
        ({
            let from: int = match start {
                Some(s) => s + 1,
                None => 0,
            };
            match next_active(id.spec_kind(), t.pile(id), start) {
                Some(i) => t.active_in(id, from) == seq![Source { stack: id, index: i }]
                    + t.active_in(id, i + 1) && from <= i < t.pile(id).len() && t.is_active(
                    id,
                    i as int,
                ),
                None => t.active_in(id, from) == Seq::<Source>::empty(),
            }
        }),
{
    let cards = t.pile(id);
    let len = cards.len() as int;
    let from: int = match start {
        Some(s) => s + 1,
        None => 0,
    };
    if from < len {
        if id.spec_kind() is Stock {
            lemma_active_gap(t, id, from, len);
        } else if id.spec_kind() is Waste || id.spec_kind() is Foundation {
            lemma_active_gap(t, id, from, len - 1);
            assert(t.active_in(id, len) =~= Seq::empty());
        } else {
            lemma_first_face_up(cards, from);
            let i = first_face_up(cards, from);
            lemma_active_gap(t, id, from, i);
        }
    }
}

/// Which places of a pile offer cards depends on the piles alone, not on
/// the cursors.
pub proof fn lemma_active_in_piles(a: TableView, b: TableView, id: StackId, from: int)
    requires
        a.piles == b.piles,
    ensures
        a.active_in(id, from) == b.active_in(id, from),
    decreases a.pile(id).len() - from,
{
    if 0 <= from < a.pile(id).len() {
        lemma_active_in_piles(a, b, id, from + 1);
    }
}

/// Which places of a table offer cards depends on the piles alone, not on
/// the cursors.
pub proof fn lemma_active_from_pile_piles(a: TableView, b: TableView, p: int)
    requires
        a.piles == b.piles,
    ensures
        a.active_from_pile(p) == b.active_from_pile(p),
    decreases 13 - p,
{
    if 0 <= p < 13 {
        lemma_active_in_piles(a, b, StackId::at(p), 0);
        lemma_active_from_pile_piles(a, b, p + 1);
    }
}

/// The moves onto the piles from position `t` on are the moves onto those
/// of these piles that take the cards.
pub proof fn lemma_moves_onto(
    v: TableView,
    source: Source,
    card: Card,
    count: nat,
    t: int,
    play: Play,
)
    requires
        2 <= t,
    ensures
        v.moves_onto(source, card, count, t).contains(play) <==> exists|k: int|
            t <= k < 13 && play == Play::MoveCards(source, StackId::at(k)) && #[trigger] v.takes(
                StackId::at(k),
                card,
                count,
            ),
    decreases 13 - t,
{
    let here = v.moves_onto(source, card, count, t);
    if t < 13 {
        let rest = v.moves_onto(source, card, count, t + 1);
        lemma_moves_onto(v, source, card, count, t + 1, play);
        let first = Play::MoveCards(source, StackId::at(t));
        if v.takes(StackId::at(t), card, count) {
            assert(here == seq![first] + rest);
            if here.contains(play) {
                let i = choose|i: int| 0 <= i < here.len() && here[i] == play;
                if i > 0 {
                    assert(rest[i - 1] == play);
                    assert(rest.contains(play));
                }
            }
            if rest.contains(play) {
                let i = choose|i: int| 0 <= i < rest.len() && rest[i] == play;
                assert(here[i + 1] == play);
            }
            if play == first {
                assert(here[0] == play);
            }
        }
    }
}

/// The moves from a sequence of places are the moves from each of them.
pub proof fn lemma_moves_of(v: TableView, sources: Seq<Source>, play: Play)
    ensures
        v.moves_of(sources).contains(play) <==> exists|i: int|
            0 <= i < sources.len() && #[trigger] v.moves_at(sources[i]).contains(play),
    decreases sources.len(),
{
    let all = v.moves_of(sources);
    if sources.len() > 0 {
        let first = v.moves_at(sources[0]);
        let rest = v.moves_of(sources.drop_first());
        lemma_moves_of(v, sources.drop_first(), play);
        assert(all == first + rest);
        if all.contains(play) {
            let i = choose|i: int| 0 <= i < all.len() && all[i] == play;
            if i < first.len() {
                assert(first[i] == play);
                assert(v.moves_at(sources[0]).contains(play));
            } else {
                assert(rest[i - first.len()] == play);
                let j = choose|j: int|
                    0 <= j < sources.drop_first().len() && #[trigger] v.moves_at(
                        sources.drop_first()[j],
                    ).contains(play);
                assert(v.moves_at(sources[j + 1]).contains(play));
            }
        }
        if exists|i: int|
            0 <= i < sources.len() && #[trigger] v.moves_at(sources[i]).contains(play) {
            let i = choose|i: int|
                0 <= i < sources.len() && #[trigger] v.moves_at(sources[i]).contains(play);
            if i == 0 {
                let k = choose|k: int| 0 <= k < first.len() && first[k] == play;
                assert(all[k] == play);
            } else {
                assert(v.moves_at(sources.drop_first()[i - 1]).contains(play));
                let k = choose|k: int| 0 <= k < rest.len() && rest[k] == play;
                assert(all[first.len() + k] == play);
            }
        }
    }
}

/// The places of a pile from a position up are the places there from which
/// cards can be picked up.
pub proof fn lemma_active_in_members(v: TableView, id: StackId, from: int, source: Source)
    requires
        0 <= from,
        v.pile(id).len() <= usize::MAX,
    ensures
        v.active_in(id, from).contains(source) <==> source.stack == id && from <= source.index
            && v.is_active(id, source.index as int),
    decreases v.pile(id).len() - from,
{
    let here = v.active_in(id, from);
    if from < v.pile(id).len() {
        let rest = v.active_in(id, from + 1);
        lemma_active_in_members(v, id, from + 1, source);
        let first = Source { stack: id, index: from as usize };
        if v.is_active(id, from) {
            assert(here == seq![first] + rest);
            if here.contains(source) {
                let i = choose|i: int| 0 <= i < here.len() && here[i] == source;
                if i > 0 {
                    assert(rest[i - 1] == source);
                    assert(rest.contains(source));
                }
            }
            if rest.contains(source) {
                let i = choose|i: int| 0 <= i < rest.len() && rest[i] == source;
                assert(here[i + 1] == source);
            }
            if source == first {
                assert(here[0] == source);
            }
        }
    }
}

/// The places in the piles from a position of the ring on are the places
/// there from which cards can be picked up.
pub proof fn lemma_active_from_pile_members(v: TableView, p: int, source: Source)
    requires
        0 <= p,
        v.wf(),
        v.countable(),
    ensures
        v.active_from_pile(p).contains(source) <==> p <= source.stack.ord() < 13 && v.is_active(
            source.stack,
            source.index as int,
        ),
    decreases 13 - p,
{
    let all = v.active_from_pile(p);
    if p < 13 {
        let first = v.active_in(StackId::at(p), 0);
        let rest = v.active_from_pile(p + 1);
        lemma_at_ord(p);
        assert(v.piles[p].len() <= usize::MAX);
        lemma_active_in_members(v, StackId::at(p), 0, source);
        lemma_active_from_pile_members(v, p + 1, source);
        lemma_ring(source.stack);
        assert(all == first + rest);
        if all.contains(source) {
            let i = choose|i: int| 0 <= i < all.len() && all[i] == source;
            if i < first.len() {
                assert(first[i] == source);
                assert(first.contains(source));
            } else {
                assert(rest[i - first.len()] == source);
                assert(rest.contains(source));
            }
        }
        if first.contains(source) {
            let k = choose|k: int| 0 <= k < first.len() && first[k] == source;
            assert(all[k] == source);
        }
        if rest.contains(source) {
            let k = choose|k: int| 0 <= k < rest.len() && rest[k] == source;
            assert(all[first.len() + k] == source);
        }
    }
}

/// The list of plays is complete and holds nothing else: a play is in it
/// if and only if the rules allow it.
pub proof fn law_plays_are_the_allowed(v: TableView, play: Play)
    requires
        v.wf(),
        v.countable(),
    ensures
        v.plays().contains(play) <==> v.allows(play),
{
    reveal(TableView::allows);
    let stock = v.stock_plays();
    let sources = v.active_sources();
    let moves = v.moves_of(sources);
    let all = v.plays();
    lemma_moves_of(v, sources, play);
    if all.contains(play) {
        let i = choose|i: int| 0 <= i < all.len() && all[i] == play;
        if i < stock.len() {
            assert(stock[i] == play);
        } else {
            assert(moves[i - stock.len()] == play);
            assert(moves.contains(play));
            let j = choose|j: int|
                0 <= j < sources.len() && #[trigger] v.moves_at(sources[j]).contains(play);
            let source = sources[j];
            assert(sources.contains(source));
            lemma_active_from_pile_members(v, 0, source);
            lemma_moves_onto(
                v,
                source,
                v.pile(source.stack)[source.index as int],
                v.run_length(source),
                2,
                play,
            );
            let k = choose|k: int|
                2 <= k < 13 && play == Play::MoveCards(source, StackId::at(k)) && #[trigger] v.takes(
                    StackId::at(k),
                    v.pile(source.stack)[source.index as int],
                    v.run_length(source),
                );
            lemma_at_ord(k);
        }
    }
    if v.allows(play) {
        match play {
            Play::MoveCards(source, target) => {
                lemma_active_from_pile_members(v, 0, source);
                assert(sources.contains(source));
                let j = choose|j: int| 0 <= j < sources.len() && sources[j] == source;
                lemma_ring(target);
                lemma_moves_onto(
                    v,
                    source,
                    v.pile(source.stack)[source.index as int],
                    v.run_length(source),
                    2,
                    play,
                );
                assert(v.takes(
                    StackId::at(target.ord()),
                    v.pile(source.stack)[source.index as int],
                    v.run_length(source),
                ));
                assert(v.moves_at(sources[j]).contains(play));
                assert(moves.contains(play));
                let k = choose|k: int| 0 <= k < moves.len() && moves[k] == play;
                assert(all[stock.len() + k] == play);
            },
            _ => {
                assert(stock[0] == play);
                assert(all[0] == play);
            },
        }
    }
}

} // verus!
