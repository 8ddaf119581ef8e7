use klondike::weight::sort_plays;
use klondike::{Card, Play, Rank, Source, StackId, Suit, Table, WeightedPlay};
use std::cmp::Ordering;

fn up(rank: Rank, suit: Suit) -> Card {
    Card { suit, rank, face_up: true }
}

fn down(rank: Rank, suit: Suit) -> Card {
    Card { suit, rank, face_up: false }
}

fn empty_table() -> Table {
    let mut table = Table::new(1);
    for i in 0..14 {
        table.get_stack_mut(StackId::from_index(i)).cards.clear();
    }
    table
}

fn set(table: &mut Table, id: StackId, cards: Vec<Card>) {
    table.get_stack_mut(id).cards = cards;
}

fn move_cards(from: StackId, index: usize, onto: StackId) -> Play {
    Play::MoveCards(Source::new(from, index), onto)
}

fn weight(play: Play, table: &Table) -> (isize, isize) {
    let weighted = WeightedPlay::new(play, table);
    assert_eq!(weighted.play, play);
    (weighted.score, weighted.priority)
}

fn weighted(score: isize, priority: isize, index: usize) -> WeightedPlay {
    WeightedPlay { play: move_cards(StackId::Waste, index, StackId::Tableau1), score, priority }
}

#[test]
fn draw_recycle_and_setup_weigh_nothing() {
    let table = Table::new(324);
    assert_eq!(weight(Play::DrawFromStock, &table), (0, 0));
    assert_eq!(weight(Play::RecycleWaste, &table), (0, 0));
    assert_eq!(weight(Play::Setup, &table), (0, 0));
}

#[test]
fn a_move_onto_a_foundation_scores_five() {
    let table = Table::new(324);
    for from in [StackId::Waste, StackId::Tableau3, StackId::Foundation1, StackId::Stock] {
        for onto in [
            StackId::Foundation1,
            StackId::Foundation2,
            StackId::Foundation3,
            StackId::Foundation4,
        ] {
            assert_eq!(weight(move_cards(from, 0, onto), &table), (5, 0));
        }
    }
}

#[test]
fn a_move_from_the_waste_onto_a_tableau_scores_five_with_priority_one() {
    let mut table = empty_table();
    set(&mut table, StackId::Waste, vec![up(Rank::King, Suit::Club), up(Rank::Seven, Suit::Club)]);
    assert_eq!(weight(move_cards(StackId::Waste, 1, StackId::Tableau2), &table), (5, 1));
}

#[test]
fn a_king_from_the_waste_goes_by_its_queen() {
    let mut table = empty_table();
    set(&mut table, StackId::Waste, vec![up(Rank::King, Suit::Club)]);
    let play = move_cards(StackId::Waste, 0, StackId::Tableau2);
    assert_eq!(weight(play, &table), (5, 99));
    set(&mut table, StackId::Tableau5, vec![down(Rank::Queen, Suit::Club), up(Rank::Two, Suit::Club)]);
    assert_eq!(weight(play, &table), (5, -1));
    set(&mut table, StackId::Tableau5, vec![up(Rank::Queen, Suit::Club), up(Rank::Two, Suit::Club)]);
    assert_eq!(weight(play, &table), (5, 1));
    set(&mut table, StackId::Tableau5, vec![up(Rank::Queen, Suit::Spade)]);
    assert_eq!(weight(play, &table), (5, 99));
    set(&mut table, StackId::Stock, vec![down(Rank::Queen, Suit::Club)]);
    assert_eq!(weight(play, &table), (5, -1));
    set(&mut table, StackId::Stock, vec![up(Rank::Queen, Suit::Club)]);
    assert_eq!(weight(play, &table), (5, 1));
    set(&mut table, StackId::Stock, vec![]);
    set(&mut table, StackId::Foundation2, vec![down(Rank::Queen, Suit::Club)]);
    assert_eq!(weight(play, &table), (5, -1));
    set(&mut table, StackId::Foundation2, vec![up(Rank::Queen, Suit::Club)]);
    assert_eq!(weight(play, &table), (5, 1));
}

#[test]
fn a_move_between_tableaux_goes_by_the_depth_of_the_lift_point() {
    let mut table = empty_table();
    set(
        &mut table,
        StackId::Tableau3,
        vec![
            down(Rank::Two, Suit::Club),
            down(Rank::Three, Suit::Club),
            up(Rank::Nine, Suit::Club),
            up(Rank::Eight, Suit::Heart),
        ],
    );
    assert_eq!(weight(move_cards(StackId::Tableau3, 2, StackId::Tableau1), &table), (0, 3));
    assert_eq!(weight(move_cards(StackId::Tableau3, 3, StackId::Tableau1), &table), (0, 1));
    assert_eq!(weight(move_cards(StackId::Tableau3, 0, StackId::Tableau1), &table), (0, 1));
    assert_eq!(weight(move_cards(StackId::Tableau4, 0, StackId::Tableau1), &table), (0, 1));
    set(&mut table, StackId::Tableau4, vec![up(Rank::Nine, Suit::Club)]);
    assert_eq!(weight(move_cards(StackId::Tableau4, 0, StackId::Tableau1), &table), (0, 1));
}

#[test]
fn a_move_from_a_foundation_onto_a_tableau_scores_minus_ten() {
    let mut table = empty_table();
    set(&mut table, StackId::Foundation2, vec![up(Rank::Ace, Suit::Club)]);
    assert_eq!(weight(move_cards(StackId::Foundation2, 0, StackId::Tableau7), &table), (-10, 0));
    assert_eq!(weight(move_cards(StackId::Foundation4, 3, StackId::Tableau1), &table), (-10, 0));
}

#[test]
fn every_other_move_weighs_nothing() {
    let mut table = empty_table();
    set(&mut table, StackId::Waste, vec![up(Rank::King, Suit::Club)]);
    assert_eq!(weight(move_cards(StackId::Waste, 1, StackId::Tableau2), &table), (0, 0));
    assert_eq!(weight(move_cards(StackId::Waste, 0, StackId::Waste), &table), (0, 0));
    assert_eq!(weight(move_cards(StackId::Waste, 0, StackId::Stock), &table), (0, 0));
    assert_eq!(weight(move_cards(StackId::Waste, 0, StackId::Hand), &table), (0, 0));
    assert_eq!(weight(move_cards(StackId::Stock, 0, StackId::Tableau2), &table), (0, 0));
    assert_eq!(weight(move_cards(StackId::Hand, 0, StackId::Tableau2), &table), (0, 0));
}

#[test]
fn tableau_move_and_waste_king_priority_on_their_own() {
    let mut table = empty_table();
    set(&mut table, StackId::Tableau3, vec![down(Rank::Two, Suit::Club), up(Rank::Nine, Suit::Club)]);
    assert_eq!(
        WeightedPlay::tableau_move(Source::new(StackId::Tableau3, 1), StackId::Tableau1, &table),
        (0, 2)
    );
    assert_eq!(
        WeightedPlay::tableau_move(Source::new(StackId::Tableau3, 0), StackId::Tableau1, &table),
        (0, 1)
    );
    let king = up(Rank::King, Suit::Heart);
    let waste = table.get_stack(StackId::Waste).clone();
    let source = Source::new(StackId::Waste, 0);
    assert_eq!(
        WeightedPlay::waste_king_priority(source, StackId::Tableau1, &waste, &king, &table),
        99
    );
    set(&mut table, StackId::Tableau7, vec![down(Rank::Queen, Suit::Heart)]);
    assert_eq!(
        WeightedPlay::waste_king_priority(source, StackId::Tableau1, &waste, &king, &table),
        -1
    );
}

#[test]
fn weights_compare_by_score_and_then_by_priority() {
    assert_eq!(weighted(5, 0, 0).cmp(&weighted(0, 99, 1)), Ordering::Greater);
    assert_eq!(weighted(-10, 0, 0).cmp(&weighted(0, 0, 1)), Ordering::Less);
    assert_eq!(weighted(5, 1, 0).cmp(&weighted(5, 99, 1)), Ordering::Less);
    assert_eq!(weighted(5, 1, 0).cmp(&weighted(5, -1, 1)), Ordering::Greater);
    assert_eq!(weighted(5, 1, 0).cmp(&weighted(5, 1, 1)), Ordering::Equal);
    assert_eq!(weighted(5, 1, 0).partial_cmp(&weighted(5, 1, 1)), Some(Ordering::Equal));
    assert_eq!(weighted(0, 1, 0).partial_cmp(&weighted(5, 1, 1)), Some(Ordering::Less));
    assert!(weighted(5, 1, 0) == weighted(5, 1, 1));
    assert!(weighted(5, 1, 0) != weighted(5, 2, 0));
    assert!(weighted(0, 3, 0) < weighted(5, 0, 0));
    assert!(weighted(5, 2, 0) > weighted(5, 1, 0));
    assert!(weighted(0, 3, 0).is_below(&weighted(0, 4, 0)));
    assert!(!weighted(0, 3, 0).is_below(&weighted(0, 3, 1)));
    assert!(!weighted(1, 3, 0).is_below(&weighted(0, 4, 0)));
}

#[test]
fn sorting_is_ascending_and_stable() {
    let mut plays = vec![
        weighted(5, 0, 0),
        weighted(0, 2, 1),
        weighted(-10, 0, 2),
        weighted(5, 99, 3),
        weighted(0, 2, 4),
        weighted(0, 0, 5),
        weighted(5, 0, 6),
        weighted(0, 2, 7),
    ];
    sort_plays(&mut plays);
    let order: Vec<usize> = plays
        .iter()
        .map(|weighted| match weighted.play {
            Play::MoveCards(source, _) => source.index,
            _ => usize::MAX,
        })
        .collect();
    assert_eq!(order, vec![2, 5, 1, 4, 7, 0, 6, 3]);
    let mut none: Vec<WeightedPlay> = Vec::new();
    sort_plays(&mut none);
    assert!(none.is_empty());
}

#[test]
fn sorting_agrees_with_the_sort_of_the_standard_library() {
    let table = Table::new(324);
    let mut plays: Vec<WeightedPlay> = klondike::generate_plays(&table)
        .into_iter()
        .map(|play| WeightedPlay::new(play, &table))
        .collect();
    for i in 0..40 {
        plays.push(weighted(((i * 7) % 5) as isize - 2, ((i * 3) % 4) as isize, i));
    }
    let mut expected = plays.clone();
    expected.sort_by(|a, b| a.cmp(b));
    sort_plays(&mut plays);
    assert_eq!(plays.len(), expected.len());
    for (ours, theirs) in plays.iter().zip(expected.iter()) {
        assert_eq!(ours.play, theirs.play);
        assert_eq!((ours.score, ours.priority), (theirs.score, theirs.priority));
    }
}
