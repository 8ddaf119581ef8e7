use klondike::player::{active_cards, CRANK_THRESHHOLD};
use klondike::{Card, Player, Rank, Source, StackId, Suit, Table};

fn up(rank: Rank, suit: Suit) -> Card {
    Card { suit, rank, face_up: true }
}

fn down(rank: Rank, suit: Suit) -> Card {
    Card { suit, rank, face_up: false }
}

fn empty_table() -> Table {
    let mut table = Table::new(1);
    for i in 0..14 {
        table.get_stack_mut(StackId::from_index(i)).cards.clear();
    }
    table
}

fn set(table: &mut Table, id: StackId, cards: Vec<Card>) {
    table.get_stack_mut(id).cards = cards;
}

fn small_table() -> Table {
    let mut table = empty_table();
    set(
        &mut table,
        StackId::Stock,
        vec![down(Rank::Ace, Suit::Club), down(Rank::Seven, Suit::Club)],
    );
    set(&mut table, StackId::Waste, vec![up(Rank::Five, Suit::Diamond)]);
    set(
        &mut table,
        StackId::Tableau1,
        vec![down(Rank::Two, Suit::Heart), up(Rank::Nine, Suit::Spade), up(Rank::Eight, Suit::Diamond)],
    );
    set(&mut table, StackId::Tableau3, vec![up(Rank::Nine, Suit::Club)]);
    set(&mut table, StackId::Tableau4, vec![up(Rank::Six, Suit::Club)]);
    table
}

#[test]
fn the_crank_threshold_is_ten() {
    assert_eq!(CRANK_THRESHHOLD, 10);
}

#[test]
fn the_stops_start_at_the_stock() {
    assert_eq!(active_cards(&empty_table()), vec![Source::stock()]);
    assert_eq!(
        active_cards(&small_table()),
        vec![
            Source::stock(),
            Source::new(StackId::Waste, 0),
            Source::new(StackId::Tableau1, 1),
            Source::new(StackId::Tableau1, 2),
            Source::new(StackId::Tableau3, 0),
            Source::new(StackId::Tableau4, 0),
        ]
    );
}

#[test]
fn a_new_player_rests_on_the_stock() {
    let table = small_table();
    let player = Player::new(table.clone());
    assert_eq!(player.table, table);
    assert_eq!(player.active_cards, active_cards(&table));
    assert_eq!(player.source_index, 0);
    assert_eq!(player.targets, vec![]);
    assert_eq!(player.target_index, 0);
    assert_eq!(player.crank_threshhold, 0);
}

#[test]
fn the_source_cursor_goes_round_the_stops() {
    let mut player = Player::new(small_table());
    let stops = player.active_cards.clone();
    for i in 1..stops.len() {
        player.go_next();
        assert_eq!(player.source_index, i);
        assert_eq!(player.table.source, stops[i]);
    }
    player.go_next();
    assert_eq!(player.source_index, 0);
    assert_eq!(player.table.source, Source::stock());
    player.go_previous();
    assert_eq!(player.source_index, stops.len() - 1);
    assert_eq!(player.table.source, Source::new(StackId::Tableau4, 0));
    player.go_previous();
    assert_eq!(player.table.source, Source::new(StackId::Tableau3, 0));
    assert_eq!(player.table.target, StackId::Stock);
}

#[test]
fn a_source_cursor_beyond_the_list_comes_back() {
    let mut player = Player::new(small_table());
    player.source_index = 40;
    player.go_previous();
    assert_eq!(player.source_index, 5);
    player.source_index = 40;
    player.go_next();
    assert_eq!(player.source_index, 0);
    player.source_index = 6;
    player.go_previous();
    assert_eq!(player.source_index, 5);
}

#[test]
fn the_crank_moves_the_cursor_past_the_threshold() {
    let mut player = Player::new(small_table());
    player.check_crank(10);
    assert_eq!(player.crank_threshhold, 10);
    assert_eq!(player.source_index, 0);
    player.check_crank(1);
    assert_eq!(player.crank_threshhold, -10);
    assert_eq!(player.source_index, 1);
    player.check_crank(-1);
    assert_eq!(player.crank_threshhold, 10);
    assert_eq!(player.source_index, 0);
    player.check_crank(-20);
    assert_eq!(player.crank_threshhold, -10);
    assert_eq!(player.source_index, 0);
    player.check_crank(-5);
    assert_eq!(player.crank_threshhold, 10);
    assert_eq!(player.source_index, 5);
    player.check_crank(-3);
    assert_eq!(player.crank_threshhold, 7);
    assert_eq!(player.source_index, 5);
}

#[test]
fn a_choice_on_the_stock_deals() {
    let mut player = Player::new(small_table());
    player.check_buttons(true, false, false);
    assert!(!player.table.has_cards_in_stock());
    assert_eq!(
        player.table.waste.cards,
        vec![up(Rank::Five, Suit::Diamond), up(Rank::Seven, Suit::Club), up(Rank::Ace, Suit::Club)]
    );
    assert_eq!(player.active_cards, active_cards(&player.table));
    assert_eq!(player.active_cards[1], Source::new(StackId::Waste, 2));
    assert_eq!(player.table.target, StackId::Stock);
    assert_eq!(player.targets, vec![StackId::Stock]);
    assert_eq!(player.target_index, 0);
}

#[test]
fn a_choice_in_a_tableau_picks_up_and_lists_the_targets() {
    let mut player = Player::new(small_table());
    player.check_buttons(false, false, true);
    player.check_buttons(false, false, true);
    player.check_buttons(false, false, true);
    assert_eq!(player.table.source, Source::new(StackId::Tableau1, 2));
    player.check_buttons(true, true, true);
    assert_eq!(player.table.in_hand.cards, vec![up(Rank::Eight, Suit::Diamond)]);
    assert_eq!(player.table.tableaux[0].cards.len(), 2);
    assert_eq!(player.table.target, StackId::Tableau1);
    assert_eq!(player.targets, vec![StackId::Tableau1, StackId::Tableau3]);
    assert_eq!(player.target_index, 0);
    assert_eq!(player.active_cards.len(), 6);

    player.check_buttons(false, false, true);
    assert_eq!(player.table.target, StackId::Tableau3);
    assert_eq!(player.target_index, 1);
    player.check_buttons(false, false, true);
    assert_eq!(player.table.target, StackId::Tableau1);
    player.check_buttons(false, true, false);
    assert_eq!(player.table.target, StackId::Tableau3);
    assert_eq!(player.source_index, 3);

    player.check_buttons(true, false, false);
    assert!(!player.table.cards_in_hand());
    assert_eq!(
        player.table.tableaux[2].cards,
        vec![up(Rank::Nine, Suit::Club), up(Rank::Eight, Suit::Diamond)]
    );
    assert_eq!(
        player.table.tableaux[0].cards,
        vec![down(Rank::Two, Suit::Heart), up(Rank::Nine, Suit::Spade)]
    );
    assert_eq!(player.table.source, Source::new(StackId::Tableau3, 1));
    assert_eq!(player.active_cards, active_cards(&player.table));
}

#[test]
fn a_choice_on_the_waste_takes_its_top_card() {
    let mut player = Player::new(small_table());
    player.go_next();
    player.check_buttons(true, false, false);
    assert_eq!(player.table.in_hand.cards, vec![up(Rank::Five, Suit::Diamond)]);
    assert!(!player.table.has_cards_in_waste());
    assert_eq!(player.targets, vec![StackId::Waste, StackId::Tableau4]);
    assert_eq!(player.target_index, 0);
    assert_eq!(player.table.target, StackId::Waste);
}

#[test]
fn no_button_changes_nothing() {
    let mut player = Player::new(small_table());
    player.go_next();
    let table = player.table.clone();
    player.check_buttons(false, false, false);
    assert_eq!(player.table, table);
    assert_eq!(player.source_index, 1);
}

#[test]
fn the_lists_are_made_anew_on_demand() {
    let mut player = Player::new(small_table());
    set(&mut player.table, StackId::Hand, vec![up(Rank::King, Suit::Heart)]);
    player.table.source = Source::new(StackId::Tableau4, 0);
    player.update_targets();
    assert_eq!(
        player.targets,
        vec![
            StackId::Tableau2,
            StackId::Tableau4,
            StackId::Tableau5,
            StackId::Tableau6,
            StackId::Tableau7,
        ]
    );
    assert_eq!(player.target_index, 1);
    set(&mut player.table, StackId::Tableau1, vec![]);
    player.update_active_cards();
    assert_eq!(player.active_cards.len(), 4);
}
