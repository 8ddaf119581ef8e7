use klondike::{Rank, Source, StackId, Suit, Table};

const TEST_SEED: u64 = 324;

#[test]
fn test_recycle_waste() {
    let table = Table::new(TEST_SEED);
    let mut work_table = table.clone();

    assert_eq!(
        table.get_stack(StackId::Stock),
        work_table.get_stack(StackId::Stock)
    );

    while work_table.has_cards_in_stock() {
        work_table.deal_from_stock();
    }

    work_table.recycle_waste();

    assert_eq!(
        table.get_stack(StackId::Stock),
        work_table.get_stack(StackId::Stock)
    );
}

#[test]
fn test_find_card() {
    let mut table = Table::new(TEST_SEED);
    table.deal_from_stock();
    println!("table = {:#?}", table);
    let queen_card_location = table.find_card(Rank::Queen, Suit::Diamond);
    assert_eq!(Some(Source::new(StackId::Tableau3, 0)), queen_card_location);

    let two_diamonds_card_location = table.find_card(Rank::Two, Suit::Diamond);
    assert_eq!(
        Some(Source::new(StackId::Stock, 6)),
        two_diamonds_card_location
    );

    let waste_card_location = table.find_card(Rank::Nine, Suit::Club);
    assert_eq!(Some(Source::new(StackId::Waste, 2)), waste_card_location);
}
