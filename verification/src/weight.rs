//! The weight of a play: how promising it looks to the solver.

use crate::card::{Card, Rank, Suit};
use crate::ids::{lemma_at_ord, Source, StackId, StackType};
use crate::play::Play;
use crate::stack::{identities, is_lift_point, position_of, Stack};
use crate::table::{Table, TableView};
use vstd::prelude::*;

verus! {

/// The score of a move onto a foundation, and of a move from the waste
/// onto a tableau.
pub const GOOD: isize = 5;

/// The score of a move from a foundation back onto a tableau.
pub const BAD: isize = -10;

/// The priority of a king from the waste whose queen lies face down.
pub const BURIED_QUEEN: isize = -1;

/// The priority of a king from the waste whose queen is nowhere to be
/// found: nothing waits for it.
pub const FREE_KING: isize = 99;

/// The position of a place plus one, as a priority; the largest priority
/// there is if the position is too high for that.
pub open spec fn depth_priority(index: usize) -> isize {
    if index + 1 <= isize::MAX {
        (index + 1) as isize
    } else {
        isize::MAX
    }
}

impl TableView {
    /// The priority of moving a king of `suit` from the waste onto a
    /// tableau: 99 if the queen of that suit is nowhere on the table; else
    /// 1 if she lies face up; else -1.
    pub open spec fn king_priority(self, suit: Suit) -> isize {
        match self.location_of(Rank::Queen, suit) {
            Some(queen) => if self.pile(queen.stack)[queen.index as int].face_up {
                1
            } else {
                BURIED_QUEEN
            },
            None => FREE_KING,
        }
    }

    /// The priority of moving cards from a place of a tableau onto a
    /// tableau: the position of the place plus one if the place is the lift
    /// point of its pile, so that deep runs come first; else 1.
    pub open spec fn lift_priority(self, source: Source) -> isize {
        if is_lift_point(self.pile(source.stack), source.index as int) {
            depth_priority(source.index)
        } else {
            1
        }
    }

    /// Score and priority of a play.
    ///
    /// | play | score | priority |
    /// |---|---|---|
    /// | a move onto a foundation | 5 | 0 |
    /// | a move of a card of the waste onto a tableau | 5 | 1, but for a king see `king_priority` |
    /// | a move from a tableau onto a tableau | 0 | see `lift_priority` |
    /// | a move from a foundation onto a tableau | -10 | 0 |
    /// | every other play | 0 | 0 |
    ///
    /// A move from a place of the waste at which no card lies is one of the
    /// other plays.
    pub open spec fn weight(self, play: Play) -> (isize, isize) {
        match play {
            Play::MoveCards(source, target) => if target.spec_is_foundation() {
                (GOOD, 0)
            } else if target.spec_is_tableau() {
                match source.stack.spec_kind() {
                    StackType::Waste => if source.index < self.pile(source.stack).len() {
                        let card = self.pile(source.stack)[source.index as int];
                        (
                            GOOD,
                            if card.rank is King {
                                self.king_priority(card.suit)
                            } else {
                                1
                            },
                        )
                    } else {
                        (0, 0)
                    },
                    StackType::Tableau => (0, self.lift_priority(source)),
                    StackType::Foundation => (BAD, 0),
                    _ => (0, 0),
                }
            } else {
                (0, 0)
            },
            _ => (0, 0),
        }
    }

    /// A play with its weight.
    pub open spec fn weighted(self, play: Play) -> WeightedPlay {
        WeightedPlay { play, score: self.weight(play).0, priority: self.weight(play).1 }
    }
}

/// A play with its weight: the solver tries the play with the highest
/// score first, and among plays of one score the one with the highest
/// priority.
#[derive(Debug, Clone, Copy)]
pub struct WeightedPlay {
    pub play: Play,
    pub score: isize,
    pub priority: isize,
}

/// The position of a place plus one, as a priority.
fn depth_as_priority(index: usize) -> (p: isize)
    ensures
        p == depth_priority(index),
{
    if index < isize::MAX as usize {
        (index + 1) as isize
    } else {
        isize::MAX
    }
}

impl WeightedPlay {
    /// Weighs a play on a table.
    pub fn new(play: Play, table: &Table) -> (r: Self)
        requires
            table.wf(),
        ensures
            r == table@.weighted(play),
    {
        let (score, priority): (isize, isize) = match play {
            Play::MoveCards(source, target) => match target {
                StackId::Foundation1
                | StackId::Foundation2
                | StackId::Foundation3
                | StackId::Foundation4 => (GOOD, 0),
                StackId::Tableau1
                | StackId::Tableau2
                | StackId::Tableau3
                | StackId::Tableau4
                | StackId::Tableau5
                | StackId::Tableau6
                | StackId::Tableau7 => match source.stack {
                    StackId::Waste => {
                        let stack = table.get_stack(source.stack);
                        if source.index < stack.cards.len() {
                            let card = &stack.cards[source.index];
                            let priority = if card.rank == Rank::King {
                                Self::waste_king_priority(source, target, stack, card, table)
                            } else {
                                1
                            };
                            (GOOD, priority)
                        } else {
                            (0, 0)
                        }
                    },
                    StackId::Tableau1
                    | StackId::Tableau2
                    | StackId::Tableau3
                    | StackId::Tableau4
                    | StackId::Tableau5
                    | StackId::Tableau6
                    | StackId::Tableau7 => Self::tableau_move(source, target, table),
                    StackId::Foundation1
                    | StackId::Foundation2
                    | StackId::Foundation3
                    | StackId::Foundation4 => (BAD, 0),
                    _ => (0, 0),
                },
                _ => (0, 0),
            },
            _ => (0, 0),
        };
        Self { play, score, priority }
    }

    /// Score and priority of a move from a place of a tableau onto a
    /// tableau.
    pub fn tableau_move(source: Source, _target: StackId, table: &Table) -> (r: (isize, isize))
        requires
            table.wf(),
        ensures
            r == (0isize, table@.lift_priority(source)),
    {
        let stack = table.get_stack(source.stack);
        let score: isize = 0;
        if stack.is_top_face_up_card(source.index) {
            if stack.cards.len() > 0 {
                (score, depth_as_priority(source.index))
            } else {
                (score, 1)
            }
        } else {
            (score, 1)
        }
    }

    /// The priority of moving the king `card` from the waste onto a
    /// tableau.
    pub fn waste_king_priority(
        _source: Source,
        _target: StackId,
        _stack: &Stack,
        card: &Card,
        table: &Table,
    ) -> (r: isize)
        requires
            table.wf(),
        ensures
            r == table@.king_priority(card.suit),
    {
        match table.find_card(Rank::Queen, card.suit) {
            Some(queen_card_location) => {
                proof {
                    lemma_location(table@, Rank::Queen, card.suit, 0);
                }
                let stack = table.get_stack(queen_card_location.stack);
                let card = &stack.cards[queen_card_location.index];
                if card.face_up {
                    1
                } else {
                    BURIED_QUEEN
                }
            },
            None => FREE_KING,
        }
    }
}

impl WeightedPlay {
    /// This weight is lower than the other: its score is lower, or the
    /// scores are equal and its priority is lower.
    pub open spec fn below(self, other: WeightedPlay) -> bool {
        self.score < other.score || (self.score == other.score && self.priority
            < other.priority)
    }

    /// Whether this weight is lower than the other.
    pub fn is_below(&self, other: &Self) -> (r: bool)
        ensures
            r == self.below(*other),
    {
        self.score < other.score || (self.score == other.score && self.priority
            < other.priority)
    }
}

/// A ranked sequence with one more play: the play stands above every play
/// that is not heavier than it, and below the rest.
pub open spec fn ranked_with(ranked: Seq<WeightedPlay>, play: WeightedPlay) -> Seq<WeightedPlay>
    decreases ranked.len(),
{
    if ranked.len() > 0 && play.below(ranked.last()) {
        ranked_with(ranked.drop_last(), play).push(ranked.last())
    } else {
        ranked.push(play)
    }
}

/// The plays from the lightest to the heaviest, plays of equal weight in
/// the order in which they came.
pub open spec fn ranked(plays: Seq<WeightedPlay>) -> Seq<WeightedPlay>
    decreases plays.len(),
{
    if plays.len() == 0 {
        plays
    } else {
        ranked_with(ranked(plays.drop_last()), plays.last())
    }
}

/// No play of the sequence is lighter than a play before it.
pub open spec fn ascending(plays: Seq<WeightedPlay>) -> bool {
    forall|i: int, j: int| 0 <= i <= j < plays.len() ==> !plays[j].below(plays[i])
}

/// Puts the plays in order from the lightest to the heaviest, and leaves
/// plays of equal weight in the order in which they came.
pub fn sort_plays(plays: &mut Vec<WeightedPlay>)
    ensures
        final(plays)@ == ranked(old(plays)@),
{
    let mut sorted: Vec<WeightedPlay> = Vec::new();
    let mut i: usize = 0;
    while i < plays.len()
        invariant
            i <= plays@.len(),
            plays@ == old(plays)@,
            sorted@ == ranked(plays@.subrange(0, i as int)),
        decreases plays@.len() - i,
    {
        let play = plays[i];
        let ghost before = sorted@;
        let mut j: usize = sorted.len();
        proof {
            assert(before.subrange(0, j as int) =~= before);
            assert(ranked_with(before, play) + before.subrange(j as int, before.len() as int)
                =~= ranked_with(before, play));
        }
        while j > 0 && play.is_below(&sorted[j - 1])
            invariant
                j <= sorted@.len(),
                sorted@ == before,
                ranked_with(before, play) == ranked_with(before.subrange(0, j as int), play)
                    + before.subrange(j as int, before.len() as int),
            decreases j,
        {
            proof {
                let head = before.subrange(0, j as int);
                assert(head.drop_last() =~= before.subrange(0, j - 1));
                assert(ranked_with(head.drop_last(), play).push(head.last()) + before.subrange(
                    j as int,
                    before.len() as int,
                ) =~= ranked_with(head.drop_last(), play) + before.subrange(
                    j - 1,
                    before.len() as int,
                ));
            }
            j -= 1;
        }
        sorted.insert(j, play);
        proof {
            let head = before.subrange(0, j as int);
            assert(ranked_with(head, play) == head.push(play));
            assert(sorted@ =~= ranked_with(before, play));
            assert(plays@.subrange(0, i + 1).drop_last() =~= plays@.subrange(0, i as int));
        }
        i += 1;
    }
    proof {
        assert(plays@.subrange(0, i as int) =~= plays@);
    }
    *plays = sorted;
}

/// Ranked plays stand in ascending order, and they are the plays that were
/// ranked: none is lost and none is added.
pub proof fn law_ranking_sorts(plays: Seq<WeightedPlay>)
    ensures
        ascending(ranked(plays)),
        ranked(plays).to_multiset() == plays.to_multiset(),
        ranked(plays).len() == plays.len(),
    decreases plays.len(),
{
    broadcast use vstd::seq_lib::group_to_multiset_ensures;

    if plays.len() > 0 {
        law_ranking_sorts(plays.drop_last());
        lemma_ranked_with(ranked(plays.drop_last()), plays.last());
        assert(plays =~= plays.drop_last().push(plays.last()));
    }
    ranked(plays).to_multiset_ensures();
    plays.to_multiset_ensures();
}

/// One more play in an ascending sequence leaves it ascending, and adds
/// that play and nothing else.
pub proof fn lemma_ranked_with(ranked: Seq<WeightedPlay>, play: WeightedPlay)
    requires
        ascending(ranked),
    ensures
        ascending(ranked_with(ranked, play)),
        ranked_with(ranked, play).to_multiset() == ranked.to_multiset().insert(play),
        ranked_with(ranked, play).len() == ranked.len() + 1,
        forall|k: int|
            0 <= k < ranked_with(ranked, play).len() ==> #[trigger] ranked_with(ranked, play)[k]
                == play || ranked.contains(ranked_with(ranked, play)[k]),
    decreases ranked.len(),
{
    broadcast use vstd::seq_lib::group_to_multiset_ensures;

    let r = ranked_with(ranked, play);
    if ranked.len() > 0 && play.below(ranked.last()) {
        let head = ranked.drop_last();
        let last = ranked.last();
        assert(ascending(head));
        lemma_ranked_with(head, play);
        let h = ranked_with(head, play);
        assert(ranked =~= head.push(last));
        assert(r == h.push(last));
        assert forall|i: int, j: int| 0 <= i <= j < r.len() implies !r[j].below(r[i]) by {
            if j == r.len() - 1 && i < j {
                if h[i] == play {
                } else {
                    assert(head.contains(h[i]));
                    let k = choose|k: int| 0 <= k < head.len() && head[k] == h[i];
                    assert(ranked[k] == h[i]);
                    assert(!ranked[ranked.len() - 1].below(ranked[k]));
                }
            }
        }
        assert forall|k: int| 0 <= k < r.len() implies #[trigger] r[k] == play || ranked.contains(
            r[k],
        ) by {
            if k < h.len() {
                if h[k] != play {
                    assert(head.contains(h[k]));
                    let m = choose|m: int| 0 <= m < head.len() && head[m] == h[k];
                    assert(ranked[m] == h[k]);
                }
            } else {
                assert(ranked[ranked.len() - 1] == r[k]);
            }
        }
    } else {
        assert forall|i: int, j: int| 0 <= i <= j < r.len() implies !r[j].below(r[i]) by {
            if j == r.len() - 1 && i < j {
                assert(!ranked[ranked.len() - 1].below(ranked[i]));
            }
        }
        assert forall|k: int| 0 <= k < r.len() implies #[trigger] r[k] == play || ranked.contains(
            r[k],
        ) by {
            if k < ranked.len() {
                assert(ranked[k] == r[k]);
            }
        }
    }
}

/// Where a card is found, there it lies: the place is within its pile, and
/// the card at it has the rank and the suit that were looked for.
pub proof fn lemma_location(t: TableView, rank: Rank, suit: Suit, from: int)
    requires
        t.wf(),
        0 <= from,
    ensures
        match t.located_from(rank, suit, from) {
            Some(place) => {
                &&& from <= place.stack.ord() < 14
                &&& place.index < t.pile(place.stack).len() || t.pile(place.stack).len()
                    > usize::MAX
                &&& t.pile(place.stack).len() <= usize::MAX ==> t.pile(
                    place.stack,
                )[place.index as int].identity() == (suit, rank)
            },
            None => true,
        },
    decreases 14 - from,
{
    if from < 14 {
        identities(t.piles[from]).index_of_first_ensures((suit, rank));
        match position_of(t.piles[from], rank, suit) {
            Some(i) => {
                lemma_at_ord(from);
            },
            None => {
                lemma_location(t, rank, suit, from + 1);
            },
        }
    }
}

} // verus!
