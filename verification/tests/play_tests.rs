use klondike::{
    generate_plays, make_move, ActiveCardIterator, Card, CardPlayIterator, Play, PlayIterator,
    Rank, Source, StackId, Suit, Table,
};

fn up(rank: Rank, suit: Suit) -> Card {
    Card { suit, rank, face_up: true }
}

fn down(rank: Rank, suit: Suit) -> Card {
    Card { suit, rank, face_up: false }
}

fn empty_table() -> Table {
    let mut table = Table::new(1);
    for i in 0..14 {
        table.get_stack_mut(StackId::from_index(i)).cards.clear();
    }
    table
}

fn set(table: &mut Table, id: StackId, cards: Vec<Card>) {
    table.get_stack_mut(id).cards = cards;
}

fn move_cards(from: StackId, index: usize, onto: StackId) -> Play {
    Play::MoveCards(Source::new(from, index), onto)
}

fn small_table() -> Table {
    let mut table = empty_table();
    set(&mut table, StackId::Stock, vec![down(Rank::Ace, Suit::Spade)]);
    set(&mut table, StackId::Waste, vec![up(Rank::Two, Suit::Club), up(Rank::King, Suit::Heart)]);
    set(&mut table, StackId::Tableau2, vec![up(Rank::Queen, Suit::Spade)]);
    table
}

#[test]
fn an_empty_table_allows_no_play() {
    assert_eq!(generate_plays(&empty_table()), vec![]);
}

#[test]
fn the_draw_comes_first_and_the_moves_follow_in_order() {
    let table = small_table();
    assert_eq!(
        generate_plays(&table),
        vec![
            Play::DrawFromStock,
            move_cards(StackId::Waste, 1, StackId::Tableau1),
            move_cards(StackId::Waste, 1, StackId::Tableau3),
            move_cards(StackId::Waste, 1, StackId::Tableau4),
            move_cards(StackId::Waste, 1, StackId::Tableau5),
            move_cards(StackId::Waste, 1, StackId::Tableau6),
            move_cards(StackId::Waste, 1, StackId::Tableau7),
        ]
    );
}

#[test]
fn a_recycle_is_offered_when_the_stock_is_empty() {
    let mut table = small_table();
    set(&mut table, StackId::Stock, vec![]);
    let plays = generate_plays(&table);
    assert_eq!(plays[0], Play::RecycleWaste);
    assert_eq!(plays.len(), 7);
    assert!(!plays.contains(&Play::DrawFromStock));
    set(&mut table, StackId::Waste, vec![]);
    assert_eq!(generate_plays(&table), vec![]);
}

#[test]
fn foundations_come_before_tableaux_and_take_single_cards() {
    let mut table = empty_table();
    set(&mut table, StackId::Foundation3, vec![up(Rank::Ace, Suit::Heart)]);
    set(
        &mut table,
        StackId::Tableau1,
        vec![down(Rank::Nine, Suit::Club), up(Rank::Three, Suit::Spade), up(Rank::Two, Suit::Heart)],
    );
    set(&mut table, StackId::Tableau4, vec![up(Rank::Three, Suit::Club)]);
    set(&mut table, StackId::Tableau5, vec![up(Rank::Four, Suit::Diamond)]);
    assert_eq!(
        generate_plays(&table),
        vec![
            move_cards(StackId::Tableau1, 1, StackId::Tableau5),
            move_cards(StackId::Tableau1, 2, StackId::Foundation3),
            move_cards(StackId::Tableau1, 2, StackId::Tableau4),
            move_cards(StackId::Tableau4, 0, StackId::Tableau5),
        ]
    );
}

#[test]
fn the_top_of_a_foundation_can_go_back_to_a_tableau() {
    let mut table = empty_table();
    set(
        &mut table,
        StackId::Foundation3,
        vec![up(Rank::Ace, Suit::Heart), up(Rank::Two, Suit::Heart)],
    );
    set(&mut table, StackId::Tableau7, vec![up(Rank::Three, Suit::Club)]);
    assert_eq!(
        generate_plays(&table),
        vec![move_cards(StackId::Foundation3, 1, StackId::Tableau7)]
    );
}

#[test]
fn nothing_is_picked_up_from_the_stock_or_the_hand() {
    let mut table = empty_table();
    set(&mut table, StackId::Stock, vec![up(Rank::King, Suit::Heart)]);
    set(&mut table, StackId::Hand, vec![up(Rank::King, Suit::Club)]);
    assert_eq!(generate_plays(&table), vec![Play::DrawFromStock]);
}

#[test]
fn generation_twice_gives_the_same_list() {
    for seed in [0, 324, 331] {
        let mut table = Table::new(seed);
        for _ in 0..5 {
            let first = generate_plays(&table);
            let second = generate_plays(&table);
            assert_eq!(first, second);
            assert!(!first.is_empty());
            table = make_move(first[first.len() - 1], &table);
        }
    }
}

#[test]
fn the_play_iterator_yields_the_generated_list() {
    for table in [small_table(), Table::new(324), empty_table()] {
        let mut walk = PlayIterator::new(&table);
        let mut plays = Vec::new();
        while let Some(play) = walk.next() {
            plays.push(play);
        }
        assert_eq!(walk.next(), None);
        assert_eq!(plays, generate_plays(&table));
    }
}

#[test]
fn the_active_card_iterator_yields_every_active_card() {
    let mut table = small_table();
    set(
        &mut table,
        StackId::Tableau6,
        vec![down(Rank::Nine, Suit::Club), up(Rank::Three, Suit::Spade), up(Rank::Two, Suit::Heart)],
    );
    set(&mut table, StackId::Foundation1, vec![up(Rank::Ace, Suit::Spade), up(Rank::Two, Suit::Spade)]);
    let mut walk = ActiveCardIterator::new(&table);
    let mut sources = Vec::new();
    while let Some(source) = walk.next() {
        sources.push(source);
    }
    assert_eq!(walk.next(), None);
    assert_eq!(
        sources,
        vec![
            Source::new(StackId::Waste, 1),
            Source::new(StackId::Foundation1, 1),
            Source::new(StackId::Tableau2, 0),
            Source::new(StackId::Tableau6, 1),
            Source::new(StackId::Tableau6, 2),
        ]
    );
}

#[test]
fn the_card_play_iterator_yields_the_targets_of_one_card() {
    let table = small_table();
    let card = up(Rank::King, Suit::Heart);
    let source = Source::new(StackId::Waste, 1);
    let mut walk = CardPlayIterator::new(&table, &card, source);
    let mut plays = Vec::new();
    while let Some(play) = walk.next() {
        plays.push(play);
    }
    assert_eq!(walk.next(), None);
    assert_eq!(plays, generate_plays(&table)[1..].to_vec());
    let ace = up(Rank::Ace, Suit::Club);
    let mut aces = CardPlayIterator::new(&table, &ace, source);
    assert_eq!(aces.next(), Some(move_cards(StackId::Waste, 1, StackId::Foundation2)));
    assert_eq!(aces.next(), None);
}

#[test]
fn make_move_draws_and_recycles() {
    let table = small_table();
    let drawn = make_move(Play::DrawFromStock, &table);
    assert!(!drawn.has_cards_in_stock());
    assert_eq!(
        drawn.get_stack(StackId::Waste).cards,
        vec![up(Rank::Two, Suit::Club), up(Rank::King, Suit::Heart), up(Rank::Ace, Suit::Spade)]
    );
    let recycled = make_move(Play::RecycleWaste, &drawn);
    assert_eq!(
        recycled.get_stack(StackId::Stock).cards,
        vec![down(Rank::Ace, Suit::Spade), down(Rank::King, Suit::Heart), down(Rank::Two, Suit::Club)]
    );
    assert!(!recycled.has_cards_in_waste());
    assert_eq!(table, small_table());
}

#[test]
fn make_move_moves_a_run_and_exposes_the_card_below() {
    let mut table = empty_table();
    set(
        &mut table,
        StackId::Tableau1,
        vec![down(Rank::Nine, Suit::Club), up(Rank::Three, Suit::Spade), up(Rank::Two, Suit::Heart)],
    );
    set(&mut table, StackId::Tableau5, vec![up(Rank::Four, Suit::Diamond)]);
    let moved = make_move(move_cards(StackId::Tableau1, 1, StackId::Tableau5), &table);
    assert_eq!(moved.get_stack(StackId::Tableau1).cards, vec![up(Rank::Nine, Suit::Club)]);
    assert_eq!(
        moved.get_stack(StackId::Tableau5).cards,
        vec![up(Rank::Four, Suit::Diamond), up(Rank::Three, Suit::Spade), up(Rank::Two, Suit::Heart)]
    );
    assert!(!moved.cards_in_hand());
    assert_eq!(table.get_stack(StackId::Tableau1).cards.len(), 3);
}
