use klondike::{make_deck, Card, Rank, Source, StackId, Suit, Table};

fn up(rank: Rank, suit: Suit) -> Card {
    Card { suit, rank, face_up: true }
}

fn down(rank: Rank, suit: Suit) -> Card {
    Card { suit, rank, face_up: false }
}

fn empty_table() -> Table {
    let mut table = Table::new(1);
    for i in 0..14 {
        table.get_stack_mut(StackId::from_index(i)).cards.clear();
    }
    table
}

fn set(table: &mut Table, id: StackId, cards: Vec<Card>) {
    table.get_stack_mut(id).cards = cards;
}

fn cards(table: &Table, id: StackId) -> Vec<Card> {
    table.get_stack(id).cards.clone()
}

fn identities(table: &Table) -> Vec<(Suit, Rank)> {
    let mut all = Vec::new();
    for i in 0..14 {
        for card in &table.get_stack(StackId::from_index(i)).cards {
            all.push((card.suit, card.rank));
        }
    }
    all.sort();
    all
}

fn whole_deck() -> Vec<(Suit, Rank)> {
    let ranks = [
        Rank::Ace,
        Rank::Two,
        Rank::Three,
        Rank::Four,
        Rank::Five,
        Rank::Six,
        Rank::Seven,
        Rank::Eight,
        Rank::Nine,
        Rank::Ten,
        Rank::Jack,
        Rank::Queen,
        Rank::King,
    ];
    let mut all = Vec::new();
    for suit in [Suit::Club, Suit::Diamond, Suit::Heart, Suit::Spade] {
        for rank in ranks {
            all.push((suit, rank));
        }
    }
    all
}

#[test]
fn a_deck_holds_every_card_once_and_face_down() {
    for seed in [0, 1, 324, u64::MAX] {
        let deck = make_deck(seed);
        assert_eq!(deck.len(), 52);
        assert!(deck.iter().all(|card| !card.face_up));
        let mut ids: Vec<(Suit, Rank)> = deck.iter().map(|card| (card.suit, card.rank)).collect();
        ids.sort();
        assert_eq!(ids, whole_deck());
    }
}

#[test]
fn a_deck_is_shuffled() {
    let deck = make_deck(324);
    let unshuffled: Vec<(Suit, Rank)> = {
        let mut all = Vec::new();
        for suit in [Suit::Diamond, Suit::Club, Suit::Heart, Suit::Spade] {
            for (_, rank) in whole_deck().into_iter().take(13) {
                all.push((suit, rank));
            }
        }
        all
    };
    let ids: Vec<(Suit, Rank)> = deck.iter().map(|card| (card.suit, card.rank)).collect();
    assert_ne!(ids, unshuffled);
    assert_ne!(make_deck(324), make_deck(325));
}

#[test]
fn one_seed_gives_one_deck_and_one_table() {
    assert_eq!(make_deck(324), make_deck(324));
    assert_eq!(Table::new(324), Table::new(324));
    assert_eq!(Table::new(0), Table::new(0));
    assert_ne!(Table::new(324), Table::new(325));
}

#[test]
fn a_new_table_is_dealt_from_the_end_of_the_deck() {
    let deck = make_deck(324);
    let table = Table::new(324);
    assert_eq!(cards(&table, StackId::Stock), deck[0..24].to_vec());
    let bases = [51, 49, 46, 42, 37, 31, 24];
    for k in 0..7 {
        let mut expected = deck[bases[k]..bases[k] + k + 1].to_vec();
        expected[k].face_up = true;
        assert_eq!(cards(&table, StackId::from_index(6 + k)), expected);
    }
    for id in [
        StackId::Waste,
        StackId::Foundation1,
        StackId::Foundation2,
        StackId::Foundation3,
        StackId::Foundation4,
        StackId::Hand,
    ] {
        assert!(cards(&table, id).is_empty());
    }
    assert_eq!(table.source, Source::new(StackId::Stock, 0));
    assert_eq!(table.target, StackId::Stock);
    assert_eq!(identities(&table), whole_deck());
}

#[test]
fn a_new_table_labels_its_stacks() {
    let table = Table::new(7);
    assert_eq!(table.foundations.len(), 4);
    assert_eq!(table.tableaux.len(), 7);
    for i in 0..14 {
        let id = StackId::from_index(i);
        assert_eq!(table.get_stack(id).stack_id, id);
        assert_eq!(table.get_stack(id).stack_type, id.kind());
    }
    assert!(!table.cards_in_hand());
    assert!(table.has_cards_in_stock());
    assert!(!table.has_cards_in_waste());
    assert_eq!(table.cards_in_foundation(), 0);
    assert!(!table.winner());
}

#[test]
fn a_deal_moves_three_cards_face_up() {
    let mut table = empty_table();
    set(
        &mut table,
        StackId::Stock,
        vec![
            down(Rank::Ace, Suit::Club),
            down(Rank::Two, Suit::Club),
            down(Rank::Three, Suit::Club),
            down(Rank::Four, Suit::Club),
            down(Rank::Five, Suit::Club),
        ],
    );
    set(&mut table, StackId::Waste, vec![up(Rank::King, Suit::Heart)]);
    table.deal_from_stock();
    assert_eq!(
        cards(&table, StackId::Stock),
        vec![down(Rank::Ace, Suit::Club), down(Rank::Two, Suit::Club)]
    );
    assert_eq!(
        cards(&table, StackId::Waste),
        vec![
            up(Rank::King, Suit::Heart),
            up(Rank::Five, Suit::Club),
            up(Rank::Four, Suit::Club),
            up(Rank::Three, Suit::Club),
        ]
    );
}

#[test]
fn a_deal_moves_what_is_left_of_a_short_stock() {
    let mut table = empty_table();
    set(
        &mut table,
        StackId::Stock,
        vec![down(Rank::Ace, Suit::Club), down(Rank::Two, Suit::Club)],
    );
    table.deal_from_stock();
    assert!(cards(&table, StackId::Stock).is_empty());
    assert_eq!(
        cards(&table, StackId::Waste),
        vec![up(Rank::Two, Suit::Club), up(Rank::Ace, Suit::Club)]
    );
}

#[test]
fn a_deal_from_an_empty_stock_recycles_the_waste() {
    let mut table = empty_table();
    set(
        &mut table,
        StackId::Waste,
        vec![up(Rank::Ace, Suit::Club), up(Rank::Two, Suit::Club), up(Rank::Three, Suit::Club)],
    );
    let mut other = table.clone();
    table.deal_from_stock();
    assert_eq!(
        cards(&table, StackId::Stock),
        vec![
            down(Rank::Three, Suit::Club),
            down(Rank::Two, Suit::Club),
            down(Rank::Ace, Suit::Club),
        ]
    );
    assert!(cards(&table, StackId::Waste).is_empty());
    other.recycle_waste();
    assert_eq!(table, other);
}

#[test]
fn a_deal_on_an_empty_stock_and_waste_changes_nothing() {
    let mut table = empty_table();
    set(&mut table, StackId::Tableau1, vec![up(Rank::Ace, Suit::Club)]);
    let before = table.clone();
    table.deal_from_stock();
    assert_eq!(table, before);
}

#[test]
fn the_stock_comes_back_after_a_round_for_many_seeds() {
    for seed in [0, 1, 2, 324, 9999] {
        let table = Table::new(seed);
        let mut work_table = table.clone();
        let mut deals = 0;
        while work_table.has_cards_in_stock() {
            work_table.deal_from_stock();
            deals += 1;
        }
        assert_eq!(deals, 8);
        assert_eq!(work_table.get_stack(StackId::Waste).cards.len(), 24);
        work_table.recycle_waste();
        assert_eq!(table, work_table);
    }
}

#[test]
fn expose_top_card_of_stack_turns_one_card() {
    let mut table = empty_table();
    set(
        &mut table,
        StackId::Tableau5,
        vec![down(Rank::Ace, Suit::Club), down(Rank::Two, Suit::Club)],
    );
    table.expose_top_card_of_stack(StackId::Tableau5);
    assert_eq!(
        cards(&table, StackId::Tableau5),
        vec![down(Rank::Ace, Suit::Club), up(Rank::Two, Suit::Club)]
    );
    table.expose_top_card_of_stack(StackId::Tableau6);
    assert!(cards(&table, StackId::Tableau6).is_empty());
}

#[test]
fn take_top_card_puts_it_in_the_hand_face_up() {
    let mut table = empty_table();
    set(
        &mut table,
        StackId::Stock,
        vec![down(Rank::Ace, Suit::Club), down(Rank::Two, Suit::Club)],
    );
    table.take_top_card_from_stack(StackId::Stock);
    assert_eq!(cards(&table, StackId::Stock), vec![down(Rank::Ace, Suit::Club)]);
    assert_eq!(cards(&table, StackId::Hand), vec![up(Rank::Two, Suit::Club)]);
    assert!(table.cards_in_hand());
    table.take_top_card_from_stack(StackId::Waste);
    assert_eq!(cards(&table, StackId::Hand), vec![up(Rank::Two, Suit::Club)]);
    table.take_top_card_from_stack(StackId::Stock);
    assert_eq!(
        cards(&table, StackId::Hand),
        vec![up(Rank::Two, Suit::Club), up(Rank::Ace, Suit::Club)]
    );
    assert!(!table.has_cards_in_stock());
}

#[test]
fn take_selected_cards_splits_the_stack() {
    let mut table = empty_table();
    let pile = vec![
        down(Rank::Ace, Suit::Club),
        up(Rank::Nine, Suit::Club),
        up(Rank::Eight, Suit::Heart),
    ];
    set(&mut table, StackId::Tableau2, pile.clone());
    table.take_selected_cards_from_stack(StackId::Tableau2, 1);
    assert_eq!(cards(&table, StackId::Tableau2), vec![down(Rank::Ace, Suit::Club)]);
    assert_eq!(
        cards(&table, StackId::Hand),
        vec![up(Rank::Nine, Suit::Club), up(Rank::Eight, Suit::Heart)]
    );
}

#[test]
fn take_selected_cards_above_the_top_takes_nothing() {
    let mut table = empty_table();
    let pile = vec![down(Rank::Ace, Suit::Club), up(Rank::Nine, Suit::Club)];
    set(&mut table, StackId::Tableau2, pile.clone());
    let before = table.clone();
    table.take_selected_cards_from_stack(StackId::Tableau2, 2);
    assert_eq!(table, before);
    table.take_selected_cards_from_stack(StackId::Tableau2, 7);
    assert_eq!(table, before);
    table.take_selected_cards_from_stack(StackId::Tableau3, 0);
    assert_eq!(table, before);
}

#[test]
fn put_hand_on_stack_appends_and_exposes_the_source() {
    let mut table = empty_table();
    set(
        &mut table,
        StackId::Tableau2,
        vec![down(Rank::Ace, Suit::Club), down(Rank::Four, Suit::Club)],
    );
    set(&mut table, StackId::Tableau3, vec![up(Rank::Ten, Suit::Heart)]);
    set(
        &mut table,
        StackId::Hand,
        vec![up(Rank::Nine, Suit::Club), up(Rank::Eight, Suit::Heart)],
    );
    let index = table.put_hand_on_stack(Source::new(StackId::Tableau2, 2), StackId::Tableau3);
    assert_eq!(index, 1);
    assert_eq!(
        cards(&table, StackId::Tableau3),
        vec![up(Rank::Ten, Suit::Heart), up(Rank::Nine, Suit::Club), up(Rank::Eight, Suit::Heart)]
    );
    assert_eq!(
        cards(&table, StackId::Tableau2),
        vec![down(Rank::Ace, Suit::Club), up(Rank::Four, Suit::Club)]
    );
    assert!(!table.cards_in_hand());
}

#[test]
fn put_hand_on_target_moves_the_source_cursor() {
    let mut table = empty_table();
    set(&mut table, StackId::Waste, vec![up(Rank::Two, Suit::Club)]);
    set(&mut table, StackId::Tableau3, vec![down(Rank::Ten, Suit::Heart), up(Rank::King, Suit::Heart)]);
    set(&mut table, StackId::Hand, vec![up(Rank::Queen, Suit::Club)]);
    table.source = Source::new(StackId::Waste, 1);
    table.target = StackId::Tableau3;
    table.put_hand_on_target();
    assert_eq!(table.source, Source::new(StackId::Tableau3, 2));
    assert_eq!(table.target, StackId::Tableau3);
    assert_eq!(
        cards(&table, StackId::Tableau3),
        vec![down(Rank::Ten, Suit::Heart), up(Rank::King, Suit::Heart), up(Rank::Queen, Suit::Club)]
    );
    assert!(!table.cards_in_hand());
}

#[test]
fn find_card_looks_through_the_stacks_in_order() {
    let mut table = empty_table();
    set(&mut table, StackId::Tableau7, vec![up(Rank::Two, Suit::Club), up(Rank::Ace, Suit::Club)]);
    set(&mut table, StackId::Hand, vec![up(Rank::Three, Suit::Club)]);
    set(&mut table, StackId::Foundation2, vec![up(Rank::Ace, Suit::Club)]);
    assert_eq!(table.find_card(Rank::Ace, Suit::Club), Some(Source::new(StackId::Foundation2, 0)));
    assert_eq!(table.find_card(Rank::Two, Suit::Club), Some(Source::new(StackId::Tableau7, 0)));
    assert_eq!(table.find_card(Rank::Three, Suit::Club), Some(Source::new(StackId::Hand, 0)));
    assert_eq!(table.find_card(Rank::Four, Suit::Club), None);
}

#[test]
fn a_table_with_all_cards_on_the_foundations_is_a_winner() {
    let mut table = empty_table();
    let homes = [
        (StackId::Foundation1, Suit::Spade),
        (StackId::Foundation2, Suit::Club),
        (StackId::Foundation3, Suit::Heart),
        (StackId::Foundation4, Suit::Diamond),
    ];
    for (id, suit) in homes {
        let pile: Vec<Card> = whole_deck()
            .into_iter()
            .filter(|(s, _)| *s == suit)
            .map(|(s, r)| up(r, s))
            .collect();
        set(&mut table, id, pile);
    }
    assert_eq!(table.cards_in_foundation(), 52);
    assert!(table.winner());
    let king = table.get_stack_mut(StackId::Foundation3).cards.pop().unwrap();
    assert_eq!(table.cards_in_foundation(), 51);
    assert!(!table.winner());
    set(&mut table, StackId::Tableau1, vec![king]);
    assert!(!table.winner());
}

#[test]
fn the_source_cursor_walks_forward_over_the_active_cards() {
    let mut table = empty_table();
    set(&mut table, StackId::Stock, vec![down(Rank::Ace, Suit::Club)]);
    set(&mut table, StackId::Waste, vec![up(Rank::Five, Suit::Diamond)]);
    set(
        &mut table,
        StackId::Tableau1,
        vec![down(Rank::Two, Suit::Heart), up(Rank::Nine, Suit::Spade), up(Rank::Eight, Suit::Diamond)],
    );
    table.source = Source::new(StackId::Stock, 0);
    assert_eq!(table.next_active_card(), Some(Source::new(StackId::Waste, 0)));
    table.source = Source::new(StackId::Waste, 0);
    assert_eq!(table.next_active_card(), Some(Source::new(StackId::Tableau1, 1)));
    table.source = Source::new(StackId::Tableau1, 1);
    assert_eq!(table.next_active_card(), Some(Source::new(StackId::Tableau1, 2)));
    table.source = Source::new(StackId::Tableau1, 2);
    assert_eq!(table.next_active_card(), Some(Source::new(StackId::Waste, 0)));
}

#[test]
fn the_source_cursor_walks_backward_over_the_active_cards() {
    let mut table = empty_table();
    set(&mut table, StackId::Stock, vec![down(Rank::Ace, Suit::Club)]);
    set(&mut table, StackId::Waste, vec![up(Rank::Five, Suit::Diamond)]);
    set(
        &mut table,
        StackId::Tableau1,
        vec![down(Rank::Two, Suit::Heart), up(Rank::Nine, Suit::Spade), up(Rank::Eight, Suit::Diamond)],
    );
    table.source = Source::new(StackId::Stock, 0);
    assert_eq!(table.previous_active_card(), Some(Source::new(StackId::Tableau1, 2)));
    table.source = Source::new(StackId::Tableau1, 2);
    assert_eq!(table.previous_active_card(), Some(Source::new(StackId::Tableau1, 1)));
    table.source = Source::new(StackId::Tableau1, 1);
    assert_eq!(table.previous_active_card(), Some(Source::new(StackId::Waste, 0)));
    table.source = Source::new(StackId::Waste, 0);
    assert_eq!(table.previous_active_card(), Some(Source::new(StackId::Stock, 0)));
}

#[test]
fn the_source_cursor_finds_nothing_on_an_empty_table() {
    let mut table = empty_table();
    assert_eq!(table.next_active_card(), None);
    assert_eq!(table.previous_active_card(), None);
    table.source = Source::new(StackId::Tableau4, 3);
    assert!(table.go_next().is_ok());
    assert_eq!(table.source, Source::stock());
    table.source = Source::new(StackId::Hand, 0);
    assert_eq!(table.next_active_card(), None);
    assert!(table.go_previous().is_ok());
    assert_eq!(table.source, Source::stock());
}

#[test]
fn the_target_cursor_walks_to_the_stacks_that_take_the_hand() {
    let mut table = empty_table();
    set(
        &mut table,
        StackId::Tableau1,
        vec![down(Rank::Two, Suit::Heart), up(Rank::Nine, Suit::Spade)],
    );
    set(&mut table, StackId::Tableau3, vec![up(Rank::Nine, Suit::Club)]);
    set(&mut table, StackId::Hand, vec![up(Rank::Eight, Suit::Diamond)]);
    table.source = Source::new(StackId::Tableau1, 2);
    table.target = StackId::Tableau1;
    assert_eq!(table.next_play_location(), StackId::Tableau3);
    assert_eq!(table.previous_play_location(), StackId::Tableau3);
    table.target = StackId::Tableau3;
    assert_eq!(table.next_play_location(), StackId::Tableau1);
    assert_eq!(table.previous_play_location(), StackId::Tableau1);
    assert!(table.go_next().is_ok());
    assert_eq!(table.target, StackId::Tableau1);
    assert_eq!(table.source, Source::new(StackId::Tableau1, 2));
    assert!(table.go_previous().is_ok());
    assert_eq!(table.target, StackId::Tableau3);
}

#[test]
fn the_target_cursor_stays_when_a_round_finds_nothing() {
    let mut table = empty_table();
    set(&mut table, StackId::Hand, vec![up(Rank::Eight, Suit::Diamond)]);
    table.source = Source::new(StackId::Hand, 0);
    table.target = StackId::Tableau2;
    assert_eq!(table.next_play_location(), StackId::Tableau2);
    assert_eq!(table.previous_play_location(), StackId::Tableau2);
    table.target = StackId::Hand;
    assert_eq!(table.next_play_location(), StackId::Hand);
}

#[test]
fn get_stack_mut_reaches_every_stack() {
    let mut table = empty_table();
    for i in 0..14 {
        let id = StackId::from_index(i);
        table.get_stack_mut(id).cards.push(up(Rank::Ace, Suit::Club));
        assert_eq!(table.get_stack(id).cards.len(), 1);
        for j in (i + 1)..14 {
            assert!(table.get_stack(StackId::from_index(j)).cards.is_empty());
        }
    }
}

#[test]
fn a_table_is_dealt_from_a_given_deck() {
    let deck: Vec<Card> = whole_deck().into_iter().map(|(suit, rank)| down(rank, suit)).collect();
    let table = Table::deal(deck.clone());
    assert_eq!(cards(&table, StackId::Stock), deck[0..24].to_vec());
    assert_eq!(cards(&table, StackId::Tableau1), vec![up(Rank::King, Suit::Spade)]);
    assert_eq!(
        cards(&table, StackId::Tableau2),
        vec![down(Rank::Jack, Suit::Spade), up(Rank::Queen, Suit::Spade)]
    );
    assert_eq!(
        cards(&table, StackId::Tableau3),
        vec![down(Rank::Eight, Suit::Spade), down(Rank::Nine, Suit::Spade), up(Rank::Ten, Suit::Spade)]
    );
    assert_eq!(cards(&table, StackId::Tableau7).len(), 7);
    assert_eq!(cards(&table, StackId::Tableau7)[0], down(Rank::Queen, Suit::Diamond));
    assert_eq!(cards(&table, StackId::Tableau7)[6], up(Rank::Five, Suit::Heart));
    assert_eq!(identities(&table), whole_deck());
    assert_eq!(table.source, Source::stock());
    assert_eq!(table.target, StackId::Stock);
}

#[test]
fn a_short_deck_leaves_a_short_stock() {
    let deck: Vec<Card> =
        whole_deck().into_iter().take(28).map(|(suit, rank)| down(rank, suit)).collect();
    let table = Table::deal(deck.clone());
    assert!(!table.has_cards_in_stock());
    assert_eq!(cards(&table, StackId::Tableau7), {
        let mut pile = deck[0..7].to_vec();
        pile[6].face_up = true;
        pile
    });
    assert_eq!(cards(&table, StackId::Tableau1), vec![up(Rank::Two, Suit::Heart)]);
}

#[test]
fn a_cloned_table_is_equal_to_the_first() {
    let mut table = Table::new(324);
    table.deal_from_stock();
    table.take_top_card_from_stack(StackId::Waste);
    let copy = table.clone();
    assert_eq!(table, copy);
    table.deal_from_stock();
    assert_ne!(table, copy);
}

#[test]
fn take_selected_cards_keeps_what_the_hand_held() {
    let mut table = empty_table();
    set(
        &mut table,
        StackId::Tableau2,
        vec![down(Rank::Ace, Suit::Club), up(Rank::Nine, Suit::Club), up(Rank::Eight, Suit::Heart)],
    );
    set(&mut table, StackId::Hand, vec![up(Rank::King, Suit::Spade)]);
    let before = identities(&table);
    table.take_selected_cards_from_stack(StackId::Tableau2, 1);
    assert_eq!(cards(&table, StackId::Tableau2), vec![down(Rank::Ace, Suit::Club)]);
    assert_eq!(
        cards(&table, StackId::Hand),
        vec![up(Rank::King, Suit::Spade), up(Rank::Nine, Suit::Club), up(Rank::Eight, Suit::Heart)]
    );
    assert_eq!(identities(&table), before);
    table.take_selected_cards_from_stack(StackId::Hand, 1);
    assert_eq!(
        cards(&table, StackId::Hand),
        vec![up(Rank::King, Suit::Spade), up(Rank::Nine, Suit::Club), up(Rank::Eight, Suit::Heart)]
    );
    assert_eq!(identities(&table), before);
}

#[test]
fn no_primitive_loses_a_card() {
    let mut table = Table::new(324);
    let deck = identities(&table);
    table.deal_from_stock();
    assert_eq!(identities(&table), deck);
    table.take_top_card_from_stack(StackId::Waste);
    assert_eq!(identities(&table), deck);
    table.take_selected_cards_from_stack(StackId::Tableau7, 4);
    assert_eq!(identities(&table), deck);
    assert_eq!(cards(&table, StackId::Hand).len(), 4);
    table.take_top_card_from_stack(StackId::Hand);
    assert_eq!(identities(&table), deck);
    table.put_hand_on_stack(Source::new(StackId::Tableau7, 4), StackId::Tableau1);
    assert_eq!(identities(&table), deck);
    assert!(!table.cards_in_hand());
    table.expose_top_card_of_stack(StackId::Tableau6);
    table.recycle_waste();
    table.put_hand_on_target();
    assert!(table.go_next().is_ok());
    assert!(table.go_previous().is_ok());
    assert_eq!(identities(&table), deck);
}
