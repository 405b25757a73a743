use cribbage_library::cards::{Card, Rank, Suit};
use cribbage_library::cribbage_errors::{decimal, CribbageError, CribbageErrorKind};
use cribbage_library::sorting::{card_leq, count_up_to, sort_cards};

fn c(rank: Rank, suit: Suit) -> Card {
    Card::new(rank, suit)
}

#[test]
fn sort_cards_orders_by_rank_then_suit() {
    let mut cards = vec![
        c(Jack, Suit::Spades),
        c(Five, Suit::Spades),
        c(Jack, Suit::Hearts),
        c(Six, Suit::Hearts),
        c(Five, Suit::Clubs),
    ];
    let mut expected = cards.clone();
    expected.sort();
    sort_cards(&mut cards);
    assert_eq!(
        cards,
        vec![
            c(Five, Suit::Clubs),
            c(Five, Suit::Spades),
            c(Six, Suit::Hearts),
            c(Jack, Suit::Hearts),
            c(Jack, Suit::Spades)
        ]
    );
    assert_eq!(cards, expected);
}

#[test]
fn sort_cards_agrees_with_the_order_of_cards() {
    let mut deck: Vec<Card> = (0..52).map(|i| Card::from_index((i * 37 + 11) % 52)).collect();
    deck.push(Card::default());
    deck.push(c(Rank::Unknown, Suit::Clubs));
    deck.push(c(Rank::Ace, Suit::Unknown));
    let mut expected = deck.clone();
    expected.sort();
    sort_cards(&mut deck);
    assert_eq!(deck, expected);
    let mut none: Vec<Card> = Vec::new();
    sort_cards(&mut none);
    assert!(none.is_empty());
}

#[test]
fn card_leq_is_the_order_of_cards() {
    for i in 0..52 {
        for j in 0..52 {
            let (a, b) = (Card::from_index(i), Card::from_index(j));
            assert_eq!(card_leq(&a, &b), a <= b);
        }
    }
}

#[test]
fn count_up_to_stops_above_the_limit() {
    let cards = [c(Ten, Suit::Clubs), c(King, Suit::Clubs), c(Five, Suit::Hearts), c(Six, Suit::Hearts)];
    assert_eq!(count_up_to(&cards, 31), 31);
    assert_eq!(count_up_to(&cards, 30), 31);
    assert_eq!(count_up_to(&cards, 15), 16);
    assert_eq!(count_up_to(&cards[..3], 31), 25);
    assert_eq!(count_up_to(&[], 31), 0);
}

#[test]
fn decimal_writes_numbers() {
    assert_eq!(decimal(0), "0");
    assert_eq!(decimal(7), "7");
    assert_eq!(decimal(10), "10");
    assert_eq!(decimal(4096), "4096");
    assert_eq!(decimal(usize::MAX), usize::MAX.to_string());
}

#[test]
fn error_holds_kind_and_message() {
    let e = CribbageError::new(CribbageErrorKind::BadCard, "card index can't be > 51".to_string());
    assert_eq!(e.error_kind, CribbageErrorKind::BadCard);
    assert_eq!(e.message, "card index can't be > 51");
}

use cribbage_library::cards::Rank::{Five, Jack, King, Six, Ten};
