use klondike::ids::{FOUNDATIONS, TABLEAUX};
use klondike::{Card, Color, Rank, Source, StackId, StackType, Suit};

fn card(rank: Rank, suit: Suit) -> Card {
    Card { suit, rank, face_up: true }
}

#[test]
fn suits_have_their_colors() {
    assert_eq!(Suit::Diamond.color(), Color::Red);
    assert_eq!(Suit::Heart.color(), Color::Red);
    assert_eq!(Suit::Club.color(), Color::Black);
    assert_eq!(Suit::Spade.color(), Color::Black);
}

#[test]
fn ranks_count_from_ace_to_king() {
    assert_eq!(Rank::Ace.number(), 1);
    assert_eq!(Rank::Two.number(), 2);
    assert_eq!(Rank::Ten.number(), 10);
    assert_eq!(Rank::Jack.number(), 11);
    assert_eq!(Rank::Queen.number(), 12);
    assert_eq!(Rank::King.number(), 13);
}

#[test]
fn suits_are_ordered_club_diamond_heart_spade() {
    assert!(Suit::Club < Suit::Diamond);
    assert!(Suit::Diamond < Suit::Heart);
    assert!(Suit::Heart < Suit::Spade);
    assert!(Rank::Ace < Rank::Two);
    assert!(Rank::Queen < Rank::King);
}

#[test]
fn same_color_looks_at_the_suits_only() {
    assert!(card(Rank::Ace, Suit::Heart).is_same_color(&card(Rank::King, Suit::Diamond)));
    assert!(card(Rank::Ace, Suit::Club).is_same_color(&card(Rank::Two, Suit::Spade)));
    assert!(card(Rank::Ace, Suit::Club).is_same_color(&card(Rank::Ace, Suit::Club)));
    assert!(!card(Rank::Ace, Suit::Club).is_same_color(&card(Rank::Ace, Suit::Heart)));
    assert!(!card(Rank::Ace, Suit::Diamond).is_same_color(&card(Rank::Ace, Suit::Spade)));
}

#[test]
fn one_below_is_a_difference_of_exactly_one() {
    let five = card(Rank::Five, Suit::Heart);
    let six = card(Rank::Six, Suit::Spade);
    let seven = card(Rank::Seven, Suit::Spade);
    assert!(five.is_one_below(&six));
    assert!(!six.is_one_below(&five));
    assert!(!five.is_one_below(&seven));
    assert!(!five.is_one_below(&five));
    assert!(card(Rank::Queen, Suit::Club).is_one_below(&card(Rank::King, Suit::Club)));
    assert!(!card(Rank::King, Suit::Club).is_one_below(&card(Rank::Ace, Suit::Club)));
}

#[test]
fn the_ring_goes_round_in_thirteen_steps() {
    let mut id = StackId::Stock;
    let expected = [
        StackId::Waste,
        StackId::Foundation1,
        StackId::Foundation2,
        StackId::Foundation3,
        StackId::Foundation4,
        StackId::Tableau1,
        StackId::Tableau2,
        StackId::Tableau3,
        StackId::Tableau4,
        StackId::Tableau5,
        StackId::Tableau6,
        StackId::Tableau7,
        StackId::Stock,
    ];
    for next in expected {
        assert_eq!(id.next(), next);
        assert_eq!(next.previous(), id);
        id = next;
    }
}

#[test]
fn the_hand_stands_apart_from_the_ring() {
    assert_eq!(StackId::Hand.next(), StackId::Hand);
    assert_eq!(StackId::Hand.previous(), StackId::Hand);
    assert_eq!(StackId::Hand.next_no_wrap(), Some(StackId::Hand));
}

#[test]
fn next_no_wrap_stops_after_the_last_tableau() {
    assert_eq!(StackId::Stock.next_no_wrap(), Some(StackId::Waste));
    assert_eq!(StackId::Foundation4.next_no_wrap(), Some(StackId::Tableau1));
    assert_eq!(StackId::Tableau6.next_no_wrap(), Some(StackId::Tableau7));
    assert_eq!(StackId::Tableau7.next_no_wrap(), None);
    assert_eq!(StackId::Tableau7.next(), StackId::Stock);
    assert_eq!(StackId::Stock.previous(), StackId::Tableau7);
}

#[test]
fn foundations_and_tableaux_know_themselves() {
    for i in 0..14 {
        let id = StackId::from_index(i);
        assert_eq!(id.index(), i);
        assert_eq!(id.is_foundation(), (2..6).contains(&i));
        assert_eq!(id.is_tableau(), (6..13).contains(&i));
    }
    assert_eq!(StackId::from_index(99), StackId::Hand);
    assert_eq!(StackId::Stock.kind(), StackType::Stock);
    assert_eq!(StackId::Waste.kind(), StackType::Waste);
    assert_eq!(StackId::Foundation3.kind(), StackType::Foundation);
    assert_eq!(StackId::Tableau5.kind(), StackType::Tableau);
    assert_eq!(StackId::Hand.kind(), StackType::Hand);
}

#[test]
fn sources_are_built_from_their_parts() {
    let source = Source::new(StackId::Tableau4, 3);
    assert_eq!(source.stack, StackId::Tableau4);
    assert_eq!(source.index, 3);
    assert_eq!(Source::stock(), Source::new(StackId::Stock, 0));
}

#[test]
fn ranks_are_written_with_one_letter() {
    let labels: Vec<&'static str> = [
        Rank::Ace,
        Rank::Two,
        Rank::Three,
        Rank::Four,
        Rank::Five,
        Rank::Six,
        Rank::Seven,
        Rank::Eight,
        Rank::Nine,
        Rank::Ten,
        Rank::Jack,
        Rank::Queen,
        Rank::King,
    ]
    .into_iter()
    .map(|rank| rank.into())
    .collect();
    assert_eq!(labels, vec!["A", "2", "3", "4", "5", "6", "7", "8", "9", "T", "J", "Q", "K"]);
}

#[test]
fn the_lists_of_foundations_and_tableaux_are_in_order() {
    assert_eq!(FOUNDATIONS.len(), 4);
    assert_eq!(TABLEAUX.len(), 7);
    for (i, id) in FOUNDATIONS.iter().enumerate() {
        assert_eq!(id.index(), 2 + i);
        assert!(id.is_foundation());
    }
    for (i, id) in TABLEAUX.iter().enumerate() {
        assert_eq!(id.index(), 6 + i);
        assert!(id.is_tableau());
    }
}
