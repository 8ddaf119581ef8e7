//! The solver: a depth-first search with backtracking for a line of play
//! that wins the game.

use crate::card::Rank;
use crate::ids::{Source, StackId, StackType};
use crate::laws::{
    face_up_is_a_top_part, law_apply_conserves_cards, law_play_keeps_order,
    law_play_keeps_tableaux_shown,
};
use crate::play::{generate_plays, law_plays_are_the_allowed, Play};
use crate::stack::is_lift_point;
use crate::table::{Table, TableView};
use crate::weight::{law_ranking_sorts, ranked, sort_plays, WeightedPlay};
use std::collections::HashSet;
use vstd::std_specs::hash::obeys_key_model;
use vstd::prelude::*;

verus! {

/// How many steps the search takes before it gives up, unless told
/// otherwise.
pub const ITERATION_LIMIT: usize = 5_000_000;

impl TableView {
    /// Whether a play can be applied: a draw to a stock that holds cards, a
    /// recycle to an empty stock, a move to any table, the setup to none.
    pub open spec fn can_apply(self, play: Play) -> bool {
        match play {
            Play::Setup => false,
            Play::DrawFromStock => self.pile(StackId::Stock).len() > 0,
            Play::RecycleWaste => self.pile(StackId::Stock).len() == 0,
            Play::MoveCards(_, _) => true,
        }
    }

    /// The table after a play. A draw and a recycle deal; a move picks the
    /// cards up at its source and puts the hand down on its target.
    pub open spec fn applied(self, play: Play) -> TableView {
        match play {
            Play::Setup => self,
            Play::DrawFromStock | Play::RecycleWaste => self.dealt(),
            Play::MoveCards(source, target) => self.taken(source.stack, source.index as int).put(
                source.stack,
                target,
            ),
        }
    }

    /// Whether a move gets through the filter of the search. A move onto a
    /// foundation always does. Of the other moves, one from a foundation
    /// never does; one from the bottom of a tableau does unless the card
    /// there is a king; one from higher up in a tableau does if it picks up
    /// at the lift point of the pile; every other does.
    pub open spec fn passes_move(self, source: Source, target: StackId) -> bool {
        if target.spec_is_foundation() {
            true
        } else {
            match source.stack.spec_kind() {
                StackType::Foundation => false,
                StackType::Tableau => if source.index == 0 {
                    !(self.pile(source.stack).len() > 0 && self.pile(source.stack)[0].rank is King)
                } else {
                    is_lift_point(self.pile(source.stack), source.index as int)
                },
                _ => true,
            }
        }
    }

    /// Whether a play gets through the filter of the search, after the
    /// plays that led from the start to this table. A recycle does if
    /// something was played since the last recycle other than draws; for a
    /// move see `passes_move`; every other play does.
    pub open spec fn passes(self, play: Play, previous: Seq<Play>) -> bool {
        match play {
            Play::RecycleWaste => recycle_open(previous),
            Play::MoveCards(source, target) => self.passes_move(source, target),
            _ => true,
        }
    }

    /// The plays that the table allows, each with its weight, from the
    /// lightest to the heaviest.
    pub open spec fn candidates(self) -> Seq<WeightedPlay> {
        ranked(self.plays().map_values(|play: Play| self.weighted(play)))
    }

    /// The position of the heaviest of `candidates` that gets through the
    /// filter, the later one of two that weigh the same; -1 if none does.
    pub open spec fn last_passing(
        self,
        candidates: Seq<WeightedPlay>,
        previous: Seq<Play>,
    ) -> int
        decreases candidates.len(),
    {
        if candidates.len() == 0 {
            -1
        } else if self.passes(candidates.last().play, previous) {
            candidates.len() - 1
        } else {
            self.last_passing(candidates.drop_last(), previous)
        }
    }
}

/// Whether the waste may be recycled after these plays: the last play that
/// was not a draw was not a recycle either. After no play at all, or after
/// draws only, it may not.
pub open spec fn recycle_open(previous: Seq<Play>) -> bool {
    exists|k: int|
        0 <= k < previous.len() && !(#[trigger] previous[k] is DrawFromStock) && !(previous[k]
            is RecycleWaste) && forall|j: int|
            k < j < previous.len() ==> #[trigger] previous[j] is DrawFromStock
}

/// The table after a play, as a table of its own; the table that is passed
/// in stays as it is. No card is lost, and a play that the rules allow
/// leaves a table in order as it found it.
pub fn make_move(play: Play, table: &Table) -> (new_table: Table)
    requires
        table.wf(),
        table@.can_apply(play),
    ensures
        new_table.wf(),
        new_table@ == table@.applied(play),
        new_table@.all_cards() == table@.all_cards(),
        table@.tidy() && table@.allows(play) ==> new_table@.tidy(),
        table@.pile(StackId::Hand).len() == 0 && table@.tableaux_shown() && table@.allows(play)
            && table@.moves_face_up(play) ==> new_table@.tableaux_shown() && forall|i: int|
            6 <= i < 13 ==> face_up_is_a_top_part(#[trigger] new_table@.piles[i]),
{
    proof {
        law_apply_conserves_cards(table@, play);
        if table@.tidy() && table@.allows(play) {
            law_play_keeps_order(table@, play);
        }
        if table@.pile(StackId::Hand).len() == 0 && table@.tableaux_shown() && table@.allows(play)
            && table@.moves_face_up(play) {
            law_play_keeps_tableaux_shown(table@, play);
        }
    }
    let mut new_table = table.clone();
    match play {
        Play::DrawFromStock => {
            new_table.deal_from_stock();
        },
        Play::RecycleWaste => {
            new_table.recycle_waste();
        },
        Play::MoveCards(source, stack_id) => {
            new_table.take_selected_cards_from_stack(source.stack, source.index);
            new_table.put_hand_on_stack(source, stack_id);
        },
        Play::Setup => {},
    }
    new_table
}

/// What a frame of the search holds, as plain values.
pub struct NodeView {
    pub parent: Option<usize>,
    pub index: usize,
    pub play: Play,
    pub table: TableView,
    pub candidates: Seq<WeightedPlay>,
}

/// A frame of the search: a table, the play that led to it, and the plays
/// from it that have not been tried yet, the most promising one last.
pub struct SearchNode {
    pub parent: Option<usize>,
    pub index: usize,
    pub play: Play,
    pub table: Table,
    pub weighted_plays: Vec<WeightedPlay>,
}

impl View for SearchNode {
    type V = NodeView;

    /// The view of the table, and the other fields as they are.
    open spec fn view(&self) -> NodeView {
        NodeView {
            parent: self.parent,
            index: self.index,
            play: self.play,
            table: self.table@,
            candidates: self.weighted_plays@,
        }
    }
}

impl NodeView {
    /// The rules allow every play that is still to be tried.
    pub open spec fn wf(self) -> bool {
        forall|i: int|
            0 <= i < self.candidates.len() ==> self.table.allows(
                (#[trigger] self.candidates[i]).play,
            )
    }

    /// The frame that a play leads to from this frame, when it is pushed as
    /// frame number `index`.
    pub open spec fn child(self, play: Play, index: usize) -> NodeView {
        NodeView {
            parent: Some(self.index),
            index,
            play,
            table: self.table.applied(play),
            candidates: self.table.applied(play).candidates(),
        }
    }

    /// This frame comes after `parent` on a line of play: the rules allow
    /// its play on the table of `parent`, and its table is what that table
    /// becomes by the play.
    #[verifier::opaque]
    pub open spec fn follows(self, parent: NodeView) -> bool {
        parent.table.allows(self.play) && self.table == parent.table.applied(self.play)
    }

    /// This frame with only the first `n` of its plays still to be tried.
    pub open spec fn keeping(self, n: int) -> NodeView {
        NodeView {
            parent: self.parent,
            index: self.index,
            play: self.play,
            table: self.table,
            candidates: self.candidates.take(n),
        }
    }
}

impl SearchNode {
    /// The table is well formed, and the rules allow every play that is
    /// still to be tried.
    pub open spec fn wf(&self) -> bool {
        self.table.wf() && self@.wf()
    }

    /// A frame for a table: every play that the table allows is still to
    /// be tried, the heaviest last.
    pub fn new(parent: Option<usize>, index: usize, play: Play, table: Table) -> (node: SearchNode)
        requires
            table.wf(),
        ensures
            node.wf(),
            node@ == (NodeView {
                parent,
                index,
                play,
                table: table@,
                candidates: table@.candidates(),
            }),
    {
        let plays = generate_plays(&table);
        let mut weighted_plays: Vec<WeightedPlay> = Vec::new();
        let mut i: usize = 0;
        while i < plays.len()
            invariant
                i <= plays@.len(),
                table.wf(),
                weighted_plays@ == plays@.subrange(0, i as int).map_values(
                    |play: Play| table@.weighted(play),
                ),
            decreases plays@.len() - i,
        {
            weighted_plays.push(WeightedPlay::new(plays[i], &table));
            i += 1;
            assert(weighted_plays@ =~= plays@.subrange(0, i as int).map_values(
                |play: Play| table@.weighted(play),
            ));
        }
        proof {
            assert(plays@.subrange(0, i as int) =~= plays@);
            table.lemma_countable();
            lemma_candidates_can_be_applied(table@);
        }
        sort_plays(&mut weighted_plays);
        Self { parent, index, play, table, weighted_plays }
    }

    /// Lets a play through or holds it back, after the plays that led from
    /// the start of the search to this frame.
    #[verifier::loop_isolation(false)]
    pub fn filter_play(&self, play: &Play, previous_plays: &Vec<Play>) -> (r: Option<Play>)
        requires
            self.table.wf(),
        ensures
            r == if self.table@.passes(*play, previous_plays@) {
                Some(*play)
            } else {
                None
            },
    {
        match play {
            Play::RecycleWaste => {
                let mut search_index: usize = previous_plays.len();
                while search_index > 0
                    invariant
                        search_index <= previous_plays@.len(),
                        forall|j: int|
                            search_index <= j < previous_plays@.len() ==> #[trigger] previous_plays@[j]
                                is DrawFromStock,
                    decreases search_index,
                {
                    match previous_plays[search_index - 1] {
                        Play::DrawFromStock => {},
                        Play::RecycleWaste => {
                            proof {
                                lemma_recycle_shut(previous_plays@, search_index - 1);
                            }
                            return None;
                        },
                        _ => {
                            proof {
                                let k = search_index - 1;
                                assert(!(previous_plays@[k] is DrawFromStock) && !(
                                previous_plays@[k] is RecycleWaste));
                            }
                            return Some(*play);
                        },
                    }
                    search_index -= 1;
                }
                proof {
                    lemma_recycle_shut(previous_plays@, -1);
                }
                None
            },
            Play::MoveCards(source, target) => match target {
                StackId::Foundation1
                | StackId::Foundation2
                | StackId::Foundation3
                | StackId::Foundation4 => Some(*play),
                _ => match source.stack {
                    StackId::Foundation1
                    | StackId::Foundation2
                    | StackId::Foundation3
                    | StackId::Foundation4 => None,
                    StackId::Tableau1
                    | StackId::Tableau2
                    | StackId::Tableau3
                    | StackId::Tableau4
                    | StackId::Tableau5
                    | StackId::Tableau6
                    | StackId::Tableau7 => {
                        let stack = self.table.get_stack(source.stack);
                        if source.index == 0 {
                            if stack.cards.len() > 0 && stack.cards[0].rank == Rank::King {
                                None
                            } else {
                                Some(*play)
                            }
                        } else if stack.is_top_face_up_card(source.index) {
                            Some(*play)
                        } else {
                            None
                        }
                    },
                    _ => Some(*play),
                },
            },
            _ => Some(*play),
        }
    }

    /// Takes the plays that are still to be tried, the heaviest first,
    /// until one gets through the filter, and builds the frame that it leads
    /// to, which will be frame number `next_index`. Returns `None` when no
    /// play is left.
    pub fn search(&mut self, next_index: usize, previous_plays: &Vec<Play>) -> (r: Option<
        SearchNode,
    >)
        requires
            old(self).wf(),
        ensures
            final(self).wf(),
            ({
                let k = old(self)@.table.last_passing(old(self)@.candidates, previous_plays@);
                &&& final(self)@ == old(self)@.keeping(
                    if k < 0 {
                        0
                    } else {
                        k
                    },
                )
                &&& match r {
                    Some(node) => k >= 0 && node.wf() && node@ == old(self)@.child(
                        old(self)@.candidates[k].play,
                        next_index,
                    ),
                    None => k < 0,
                }
            }),
    {
        let ghost all = self.weighted_plays@;
        loop
            invariant
                self.wf(),
                self.parent == old(self).parent,
                self.index == old(self).index,
                self.play == old(self).play,
                self.table == old(self).table,
                all == old(self).weighted_plays@,
                self.weighted_plays@.len() <= all.len(),
                self.weighted_plays@ == all.take(self.weighted_plays@.len() as int),
                self.table@.last_passing(all, previous_plays@) == self.table@.last_passing(
                    self.weighted_plays@,
                    previous_plays@,
                ),
            decreases self.weighted_plays@.len(),
        {
            let ghost before = self.weighted_plays@;
            match self.weighted_plays.pop() {
                Some(weighted_play) => {
                    proof {
                        assert(self.weighted_plays@ =~= before.drop_last());
                        assert(self.weighted_plays@ =~= all.take(
                            self.weighted_plays@.len() as int,
                        ));
                        assert(weighted_play == before.last());
                        assert(self.table@.allows(before[before.len() - 1].play));
                        lemma_allowed_can_be_applied(self.table@, weighted_play.play);
                    }
                    match self.filter_play(&weighted_play.play, previous_plays) {
                        Some(play) => {
                            let new_table = make_move(play, &self.table);
                            return Some(
                                Self::new(
                                    Some(self.index),
                                    next_index,
                                    weighted_play.play,
                                    new_table,
                                ),
                            );
                        },
                        None => {},
                    }
                },
                None => {
                    proof {
                        assert(self.weighted_plays@ =~= all.take(0));
                    }
                    return None;
                },
            }
        }
    }
}

/// What a step of the search did, or why it did nothing.
#[derive(Clone, Copy, Debug, PartialEq, Eq, Structural, Hash)]
pub enum Progress {
    /// A play was applied, and the table it led to is the new deepest
    /// frame.
    Advanced,
    /// The deepest frame had no play left to try and was dropped.
    Retreated,
    /// The table of the deepest frame is a winner: the plays of the frames
    /// are a line of play that wins.
    Won,
    /// No frame is left: no line of play that the search looks at wins.
    Exhausted,
    /// The search has taken more steps than its limit allows.
    LimitReached,
}

/// The state of a search, as plain values.
pub struct SolverView {
    pub frames: Seq<NodeView>,
    pub iterations: usize,
    pub max_foundation: usize,
    pub limit: usize,
    pub solved: bool,
}

impl SolverView {
    /// The frames lie on one line: each knows its number, its parent is
    /// the frame before it, and its table is what the table of its parent
    /// becomes by its play, which the rules allow there. Every frame is well
    /// formed, the count of steps has room to grow, and a search that is
    /// marked as won ends in a table that is won.
    pub open spec fn wf(self) -> bool {
        &&& self.limit < usize::MAX
        &&& self.iterations <= self.limit + 1
        &&& self.frames.len() <= usize::MAX
        &&& self.solved ==> self.frames.len() > 0 && self.frames.last().table.won()
        &&& forall|i: int|
            0 <= i < self.frames.len() ==> {
                &&& (#[trigger] self.frames[i]).wf()
                &&& self.frames[i].table.wf()
                &&& self.frames[i].index == i
                &&& self.frames[i].parent == if i == 0 {
                    None
                } else {
                    Some((i - 1) as usize)
                }
                &&& i > 0 ==> self.frames[i].follows(self.frames[i - 1])
            }
    }

    /// The plays that led from the start to the deepest frame, the label
    /// of the first frame included.
    pub open spec fn path(self) -> Seq<Play> {
        self.frames.map_values(|frame: NodeView| frame.play)
    }

    /// Which of the plays of the deepest frame is tried next: the position
    /// of the heaviest that gets through the filter, or -1.
    pub open spec fn choice(self) -> int {
        self.frames.last().table.last_passing(self.frames.last().candidates, self.path())
    }

    /// The frame that the next play leads to.
    pub open spec fn next_frame(self) -> NodeView {
        self.frames.last().child(
            self.frames.last().candidates[self.choice()].play,
            self.frames.len() as usize,
        )
    }

    /// What the next step does.
    pub open spec fn progress(self) -> Progress {
        if self.solved {
            Progress::Won
        } else if self.frames.len() == 0 {
            Progress::Exhausted
        } else if self.iterations > self.limit {
            Progress::LimitReached
        } else if self.choice() < 0 {
            Progress::Retreated
        } else if self.next_frame().table.won() {
            Progress::Won
        } else {
            Progress::Advanced
        }
    }

    /// The most cards seen on the foundations, the deepest frame counted.
    pub open spec fn peak(self) -> usize {
        let count = self.frames.last().table.foundation_count();
        if count <= self.max_foundation {
            self.max_foundation
        } else if count <= usize::MAX {
            count as usize
        } else {
            usize::MAX
        }
    }

    /// The state after the next step. A search that is won, exhausted or
    /// over its limit stays as it is. Otherwise the deepest frame gives up
    /// its plays from the heaviest down to the first that gets through the
    /// filter; the frame that this play leads to is pushed, and if no play
    /// gets through, the deepest frame is dropped. The step is counted
    /// unless it wins.
    pub open spec fn stepped(self) -> SolverView {
        if self.solved || self.frames.len() == 0 || self.iterations > self.limit {
            self
        } else if self.choice() < 0 {
            SolverView {
                frames: self.frames.drop_last(),
                iterations: (self.iterations + 1) as usize,
                max_foundation: self.peak(),
                limit: self.limit,
                solved: false,
            }
        } else {
            SolverView {
                frames: self.frames.update(
                    self.frames.len() - 1,
                    self.frames.last().keeping(self.choice()),
                ).push(self.next_frame()),
                iterations: if self.next_frame().table.won() {
                    self.iterations
                } else {
                    (self.iterations + 1) as usize
                },
                max_foundation: self.peak(),
                limit: self.limit,
                solved: self.next_frame().table.won(),
            }
        }
    }

    /// How many counted steps are left at most.
    pub open spec fn steps_left(self) -> nat {
        if self.iterations <= self.limit {
            (self.limit + 1 - self.iterations) as nat
        } else {
            0
        }
    }

    /// The state in which the search ends: the state after as many steps
    /// as it takes until a step wins or finds nothing to do.
    pub open spec fn settled(self) -> SolverView
        decreases self.steps_left(),
        when self.limit < usize::MAX
    {
        if self.progress() is Advanced || self.progress() is Retreated {
            self.stepped().settled()
        } else {
            self.stepped()
        }
    }

    /// The set of seen tables goes from `before` to `after` while the
    /// search runs to its end: each step that advances adds a table with
    /// the view of the new deepest frame, and no other step adds or takes
    /// away anything.
    pub open spec fn sees_until_settled(self, before: Set<Table>, after: Set<Table>) -> bool
        decreases self.steps_left(),
        when self.limit < usize::MAX
    {
        if self.progress() is Advanced {
            exists|mid: Set<Table>|
                #[trigger] seen_with(before, mid, self.next_frame().table)
                    && self.stepped().sees_until_settled(mid, after)
        } else if self.progress() is Retreated {
            self.stepped().sees_until_settled(before, after)
        } else {
            after == before
        }
    }

    /// How the search ends.
    pub open spec fn outcome(self) -> Progress
        decreases self.steps_left(),
        when self.limit < usize::MAX
    {
        if self.progress() is Advanced || self.progress() is Retreated {
            self.stepped().outcome()
        } else {
            self.progress()
        }
    }
}

/// The set of seen tables has gained a table with the given view, and
/// nothing else.
pub open spec fn seen_with(before: Set<Table>, after: Set<Table>, table: TableView) -> bool {
    exists|t: Table| #[trigger] before.insert(t) == after && t@ == table
}

/// A search for a line of play that wins: the frames from the start to
/// the table that is looked at, the tables that were seen, and the count of
/// steps taken. A table is seen when a step advances to it.
pub struct Solver {
    pub nodes: Vec<SearchNode>,
    pub tables: HashSet<Table>,
    pub iterations: usize,
    pub max_foundation: usize,
    pub limit: usize,
    pub solved: bool,
}

impl View for Solver {
    type V = SolverView;

    /// The views of the frames, and the counters as they are. The set of
    /// tables that were seen has no part in it.
    open spec fn view(&self) -> SolverView {
        SolverView {
            frames: self.nodes@.map_values(|node: SearchNode| node@),
            iterations: self.iterations,
            max_foundation: self.max_foundation,
            limit: self.limit,
            solved: self.solved,
        }
    }
}

impl Solver {
    /// The search is well formed, and so is the table of every frame.
    pub open spec fn wf(&self) -> bool {
        &&& self@.wf()
        &&& forall|i: int| 0 <= i < self.nodes@.len() ==> (#[trigger] self.nodes@[i]).table.wf()
    }

    /// A search that starts at `table` and gives up after more than `limit`
    /// counted steps.
    pub fn new(table: Table, limit: usize) -> (solver: Solver)
        requires
            table.wf(),
            limit < usize::MAX,
        ensures
            solver.wf(),
            solver.tables@ == Set::<Table>::empty(),
            solver@ == (SolverView {
                frames: seq![
                    NodeView {
                        parent: None,
                        index: 0,
                        play: Play::Setup,
                        table: table@,
                        candidates: table@.candidates(),
                    },
                ],
                iterations: 0,
                max_foundation: 0,
                limit,
                solved: false,
            }),
    {
        let mut nodes: Vec<SearchNode> = Vec::new();
        nodes.push(SearchNode::new(None, 0, Play::Setup, table));
        let solver = Solver {
            nodes,
            tables: HashSet::new(),
            iterations: 0,
            max_foundation: 0,
            limit,
            solved: false,
        };
        proof {
            assert(solver@.frames =~= seq![
                NodeView {
                    parent: None,
                    index: 0,
                    play: Play::Setup,
                    table: table@,
                    candidates: table@.candidates(),
                },
            ]);
        }
        solver
    }

    /// The plays that led from the start to the deepest frame, the label
    /// of the first frame included.
    pub fn path(&self) -> (plays: Vec<Play>)
        ensures
            plays@ == self@.path(),
    {
        let mut plays: Vec<Play> = Vec::new();
        let mut i: usize = 0;
        while i < self.nodes.len()
            invariant
                i <= self.nodes@.len(),
                plays@ == self@.path().take(i as int),
            decreases self.nodes@.len() - i,
        {
            plays.push(self.nodes[i].play);
            i += 1;
            assert(plays@ =~= self@.path().take(i as int));
        }
        assert(plays@ =~= self@.path());
        plays
    }

    /// The table of the deepest frame, if there is a frame.
    pub fn table(&self) -> (r: Option<&Table>)
        ensures
            match r {
                Some(table) => self.nodes@.len() > 0 && *table == self.nodes@.last().table,
                None => self.nodes@.len() == 0,
            },
    {
        if self.nodes.len() == 0 {
            None
        } else {
            Some(&self.nodes[self.nodes.len() - 1].table)
        }
    }

    /// Lets the deepest frame look for its next play, and notes how many
    /// cards lie on its foundations.
    fn search_top(&mut self) -> (found: Option<SearchNode>)
        requires
            old(self).wf(),
            old(self).nodes@.len() > 0,
        ensures
            final(self).wf(),
            final(self).iterations == old(self).iterations,
            final(self).limit == old(self).limit,
            final(self).solved == old(self).solved,
            final(self).max_foundation == old(self)@.peak(),
            final(self).tables@ == old(self).tables@,
            final(self)@.frames == old(self)@.frames.update(
                old(self)@.frames.len() - 1,
                old(self)@.frames.last().keeping(
                    if old(self)@.choice() < 0 {
                        0
                    } else {
                        old(self)@.choice()
                    },
                ),
            ),
            match found {
                Some(node) => old(self)@.choice() >= 0 && node.wf() && node@ == old(
                    self,
                )@.next_frame() && node@.follows(final(self)@.frames.last()),
                None => old(self)@.choice() < 0,
            },
    {
        let len = self.nodes.len();
        let last_index = len - 1;
        let plays = self.path();
        let ghost before = *self;
        let ghost top = self.nodes@[last_index as int];
        proof {
            assert(before@.frames[last_index as int] == top@);
            lemma_last_passing(top@.table, top@.candidates, plays@);
        }
        let cards_in_foundation = self.nodes[last_index].table.cards_in_foundation();
        if cards_in_foundation > self.max_foundation {
            self.max_foundation = cards_in_foundation;
        }
        let found = self.nodes[last_index].search(len, &plays);
        let ghost kept = self.nodes@[last_index as int];
        proof {
            assert(self.nodes@ =~= before.nodes@.update(last_index as int, kept));
            assert(self@.frames =~= before@.frames.update(last_index as int, kept@));
            assert forall|i: int| 0 <= i < self.nodes@.len() implies (
            #[trigger] self.nodes@[i]).table.wf() by {
                if i < last_index {
                    assert(self.nodes@[i] == before.nodes@[i]);
                }
            }
            lemma_frames_kept(before@, self@, kept@);
            if found is Some {
                let k = top@.table.last_passing(top@.candidates, plays@);
                assert(top@.wf());
                assert(top@.table.allows(top@.candidates[k].play));
                reveal(NodeView::follows);
            }
        }
        found
    }

    /// Makes a frame the deepest frame, and counts the step unless the
    /// table of the frame is a winner.
    fn push_frame(&mut self, node: SearchNode) -> (r: Progress)
        requires
            old(self).wf(),
            old(self).nodes@.len() > 0,
            !old(self).solved,
            old(self).iterations <= old(self).limit,
            node.wf(),
            node@.follows(old(self)@.frames.last()),
            node@.index == old(self).nodes@.len(),
            node@.parent == Some((old(self).nodes@.len() - 1) as usize),
        ensures
            final(self).wf(),
            final(self)@.frames == old(self)@.frames.push(node@),
            final(self).limit == old(self).limit,
            final(self).max_foundation == old(self).max_foundation,
            final(self).solved == node@.table.won(),
            final(self).iterations == if node@.table.won() {
                old(self).iterations as int
            } else {
                old(self).iterations + 1
            },
            r == if node@.table.won() {
                Progress::Won
            } else {
                Progress::Advanced
            },
            obeys_key_model::<Table>() ==> if node@.table.won() {
                final(self).tables@ == old(self).tables@
            } else {
                seen_with(old(self).tables@, final(self).tables@, node@.table)
            },
    {
        broadcast use vstd::std_specs::hash::group_hash_axioms;

        let ghost before = *self;
        let won = node.table.winner();
        if !won {
            let seen = node.table.clone();
            let ghost copy = seen;
            self.tables.insert(seen);
            proof {
                if obeys_key_model::<Table>() {
                    assert(before.tables@.insert(copy) == self.tables@ && copy@ == node@.table);
                }
            }
        }
        self.nodes.push(node);
        if won {
            self.solved = true;
        } else {
            self.iterations = self.iterations + 1;
        }
        proof {
            assert(self.nodes@.len() == self.nodes.len());
            assert(self@.frames =~= before@.frames.push(node@));
            assert forall|i: int| 0 <= i < self.nodes@.len() implies (
            #[trigger] self.nodes@[i]).table.wf() by {
                if i < before.nodes@.len() {
                    assert(self.nodes@[i] == before.nodes@[i]);
                }
            }
            lemma_frames_pushed(before@, self@, node@);
        }
        if won {
            Progress::Won
        } else {
            Progress::Advanced
        }
    }

    /// Drops the deepest frame and counts the step.
    fn drop_frame(&mut self)
        requires
            old(self).wf(),
            old(self).nodes@.len() > 0,
            !old(self).solved,
            old(self).iterations <= old(self).limit,
        ensures
            final(self).wf(),
            final(self)@.frames == old(self)@.frames.drop_last(),
            final(self).limit == old(self).limit,
            final(self).max_foundation == old(self).max_foundation,
            final(self).solved == old(self).solved,
            final(self).iterations == old(self).iterations + 1,
            final(self).tables@ == old(self).tables@,
    {
        let ghost before = *self;
        self.nodes.pop();
        self.iterations = self.iterations + 1;
        proof {
            assert(self@.frames =~= before@.frames.drop_last());
            assert forall|i: int| 0 <= i < self.nodes@.len() implies (
            #[trigger] self.nodes@[i]).table.wf() by {
                assert(self.nodes@[i] == before.nodes@[i]);
            }
            lemma_frames_dropped(before@, self@);
        }
    }

    /// Takes one step of the search and says what it did.
    pub fn step(&mut self) -> (r: Progress)
        requires
            old(self).wf(),
        ensures
            final(self).wf(),
            final(self)@ == old(self)@.stepped(),
            r == old(self)@.progress(),
            obeys_key_model::<Table>() ==> if r is Advanced {
                seen_with(old(self).tables@, final(self).tables@, old(self)@.next_frame().table)
            } else {
                final(self).tables@ == old(self).tables@
            },
    {
        if self.solved {
            return Progress::Won;
        }
        if self.nodes.len() == 0 {
            return Progress::Exhausted;
        }
        if self.iterations > self.limit {
            return Progress::LimitReached;
        }
        let ghost before = self@;
        match self.search_top() {
            Some(node) => {
                let progress = self.push_frame(node);
                proof {
                    assert(self@.frames =~= before.stepped().frames);
                }
                progress
            },
            None => {
                self.drop_frame();
                proof {
                    assert(self@.frames =~= before.stepped().frames);
                }
                Progress::Retreated
            },
        }
    }

    /// Runs the search to its end and says how it ended: with a win, with
    /// no frame left, or over the limit. The tables that it advanced to are
    /// the tables it has seen since.
    pub fn run(&mut self) -> (r: Progress)
        requires
            old(self).wf(),
        ensures
            final(self).wf(),
            final(self)@ == old(self)@.settled(),
            r == old(self)@.outcome(),
            r is Won || r is Exhausted || r is LimitReached,
            r is Won ==> final(self)@.frames.len() > 0 && final(self)@.frames.last().table.won(),
            r is Exhausted ==> final(self)@.frames.len() == 0,
            r is LimitReached ==> final(self)@.iterations > final(self)@.limit,
            obeys_key_model::<Table>() ==> old(self)@.sees_until_settled(
                old(self).tables@,
                final(self).tables@,
            ),
    {
        loop
            invariant
                self.wf(),
                self@.settled() == old(self)@.settled(),
                self@.outcome() == old(self)@.outcome(),
                obeys_key_model::<Table>() ==> forall|end: Set<Table>| #[trigger]
                    self@.sees_until_settled(self.tables@, end) ==> old(self)@.sees_until_settled(
                        old(self).tables@,
                        end,
                    ),
            decreases self@.steps_left(),
        {
            let ghost before = self@;
            let ghost seen = self.tables@;
            let progress = self.step();
            proof {
                if obeys_key_model::<Table>() {
                    assert forall|end: Set<Table>| #[trigger]
                        self@.sees_until_settled(self.tables@, end) && (progress is Advanced
                            || progress is Retreated) implies before.sees_until_settled(
                        seen,
                        end,
                    ) by {
                        lemma_sees_one_step_more(before, seen, self.tables@, end);
                    }
                    if !(progress is Advanced || progress is Retreated) {
                        assert(before.sees_until_settled(seen, seen));
                    }
                }
            }
            match progress {
                Progress::Advanced | Progress::Retreated => {},
                _ => {
                    return progress;
                },
            }
        }
    }
}

/// What a search sees from the state after a step on, it sees from the
/// state before the step on, the step included.
pub proof fn lemma_sees_one_step_more(
    s: SolverView,
    before: Set<Table>,
    mid: Set<Table>,
    end: Set<Table>,
)
    requires
        s.limit < usize::MAX,
        s.progress() is Advanced || s.progress() is Retreated,
        s.progress() is Advanced ==> seen_with(before, mid, s.next_frame().table),
        s.progress() is Retreated ==> mid == before,
        s.stepped().sees_until_settled(mid, end),
    ensures
        s.sees_until_settled(before, end),
{
}

/// A search whose deepest frame gave up some of its plays stays well
/// formed.
pub proof fn lemma_frames_kept(before: SolverView, after: SolverView, kept: NodeView)
    requires
        before.wf(),
        before.frames.len() > 0,
        after.frames == before.frames.update(before.frames.len() - 1, kept),
        kept.wf(),
        kept.table == before.frames.last().table,
        kept.play == before.frames.last().play,
        kept.index == before.frames.last().index,
        kept.parent == before.frames.last().parent,
        after.limit == before.limit,
        after.iterations == before.iterations,
        after.solved == before.solved,
    ensures
        after.wf(),
{
    reveal(NodeView::follows);
    let last = before.frames.len() - 1;
    assert forall|i: int| 0 <= i < after.frames.len() implies {
        &&& (#[trigger] after.frames[i]).wf()
        &&& after.frames[i].table.wf()
        &&& after.frames[i].index == i
        &&& after.frames[i].parent == if i == 0 {
            None
        } else {
            Some((i - 1) as usize)
        }
        &&& i > 0 ==> after.frames[i].follows(after.frames[i - 1])
    } by {
        assert(before.frames[i].wf());
        if i > 0 {
            assert(before.frames[i].follows(before.frames[i - 1]));
        }
    }
}

/// A search with one more frame, which follows the frame that was the
/// deepest, stays well formed.
pub proof fn lemma_frames_pushed(before: SolverView, after: SolverView, node: NodeView)
    requires
        before.wf(),
        before.frames.len() > 0,
        before.frames.len() < usize::MAX,
        !before.solved,
        before.iterations <= before.limit,
        after.frames == before.frames.push(node),
        node.wf(),
        node.table.wf(),
        node.follows(before.frames.last()),
        node.index == before.frames.len(),
        node.parent == Some((before.frames.len() - 1) as usize),
        after.limit == before.limit,
        after.iterations <= before.iterations + 1,
        after.solved == node.table.won(),
    ensures
        after.wf(),
{
    assert forall|i: int| 0 <= i < after.frames.len() implies {
        &&& (#[trigger] after.frames[i]).wf()
        &&& after.frames[i].table.wf()
        &&& after.frames[i].index == i
        &&& after.frames[i].parent == if i == 0 {
            None
        } else {
            Some((i - 1) as usize)
        }
        &&& i > 0 ==> after.frames[i].follows(after.frames[i - 1])
    } by {
        if i < before.frames.len() {
            assert(before.frames[i].wf());
            if i > 0 {
                assert(before.frames[i].follows(before.frames[i - 1]));
            }
        }
    }
}

/// A search without its deepest frame stays well formed.
pub proof fn lemma_frames_dropped(before: SolverView, after: SolverView)
    requires
        before.wf(),
        before.frames.len() > 0,
        !before.solved,
        before.iterations <= before.limit,
        after.frames == before.frames.drop_last(),
        after.limit == before.limit,
        after.iterations == before.iterations + 1,
        !after.solved,
    ensures
        after.wf(),
{
    assert forall|i: int| 0 <= i < after.frames.len() implies {
        &&& (#[trigger] after.frames[i]).wf()
        &&& after.frames[i].table.wf()
        &&& after.frames[i].index == i
        &&& after.frames[i].parent == if i == 0 {
            None
        } else {
            Some((i - 1) as usize)
        }
        &&& i > 0 ==> after.frames[i].follows(after.frames[i - 1])
    } by {
        assert(before.frames[i].wf());
        if i > 0 {
            assert(before.frames[i].follows(before.frames[i - 1]));
        }
    }
}

/// A play that the rules allow can be applied.
pub proof fn lemma_allowed_can_be_applied(v: TableView, play: Play)
    requires
        v.allows(play),
    ensures
        v.can_apply(play),
{
    reveal(TableView::allows);
}

/// The play that is tried next is one of the candidates, it gets through
/// the filter, and no candidate above it does.
pub proof fn lemma_last_passing(v: TableView, candidates: Seq<WeightedPlay>, previous: Seq<Play>)
    ensures
        -1 <= v.last_passing(candidates, previous) < candidates.len(),
        v.last_passing(candidates, previous) >= 0 ==> v.passes(
            candidates[v.last_passing(candidates, previous)].play,
            previous,
        ),
        forall|i: int|
            v.last_passing(candidates, previous) < i < candidates.len() ==> !v.passes(
                (#[trigger] candidates[i]).play,
                previous,
            ),
    decreases candidates.len(),
{
    if candidates.len() > 0 && !v.passes(candidates.last().play, previous) {
        lemma_last_passing(v, candidates.drop_last(), previous);
        assert forall|i: int|
            v.last_passing(candidates, previous) < i < candidates.len() implies !v.passes(
            (#[trigger] candidates[i]).play,
            previous,
        ) by {
            if i < candidates.len() - 1 {
                assert(candidates.drop_last()[i] == candidates[i]);
            }
        }
    }
}

/// After plays that end in a recycle and then draws only, or that are all
/// draws, the waste may not be recycled.
pub proof fn lemma_recycle_shut(previous: Seq<Play>, last: int)
    requires
        -1 <= last < previous.len(),
        last >= 0 ==> previous[last] is RecycleWaste,
        forall|j: int| last < j < previous.len() ==> #[trigger] previous[j] is DrawFromStock,
    ensures
        !recycle_open(previous),
{
    if recycle_open(previous) {
        let k = choose|k: int|
            0 <= k < previous.len() && !(#[trigger] previous[k] is DrawFromStock) && !(previous[k]
                is RecycleWaste) && forall|j: int|
                k < j < previous.len() ==> #[trigger] previous[j] is DrawFromStock;
        if k < last {
            assert(previous[last] is DrawFromStock);
        }
    }
}

/// Every play among the candidates of a table is allowed by the rules, and
/// so it can be applied.
pub proof fn lemma_candidates_can_be_applied(v: TableView)
    requires
        v.wf(),
        v.countable(),
    ensures
        forall|i: int|
            0 <= i < v.candidates().len() ==> v.allows((#[trigger] v.candidates()[i]).play)
                && v.can_apply(v.candidates()[i].play),
{
    broadcast use vstd::seq_lib::group_to_multiset_ensures;

    let weighted = v.plays().map_values(|play: Play| v.weighted(play));
    law_ranking_sorts(weighted);
    assert forall|i: int| 0 <= i < v.candidates().len() implies v.allows(
        (#[trigger] v.candidates()[i]).play,
    ) && v.can_apply(v.candidates()[i].play) by {
        let c = v.candidates()[i];
        assert(v.candidates().to_multiset().contains(c));
        assert(weighted.to_multiset().contains(c));
        assert(weighted.contains(c));
        let j = choose|j: int| 0 <= j < weighted.len() && weighted[j] == c;
        assert(c.play == v.plays()[j]);
        assert(v.plays().contains(c.play));
        law_plays_are_the_allowed(v, c.play);
        lemma_allowed_can_be_applied(v, c.play);
    }
}

} // verus!
