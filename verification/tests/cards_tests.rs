use cribbage_library::cards::{Card, Rank, Suit};
use cribbage_library::cribbage_errors::CribbageErrorKind;

const RANKS: [Rank; 14] = [
    Rank::Ace,
    Rank::Two,
    Rank::Three,
    Rank::Four,
    Rank::Five,
    Rank::Six,
    Rank::Seven,
    Rank::Eight,
    Rank::Nine,
    Rank::Ten,
    Rank::Jack,
    Rank::Queen,
    Rank::King,
    Rank::Unknown,
];

const SUITS: [Suit; 5] = [
    Suit::Clubs,
    Suit::Diamonds,
    Suit::Hearts,
    Suit::Spades,
    Suit::Unknown,
];

#[test]
fn name_is_rank_of_suit() {
    assert_eq!(Card::new(Rank::Five, Suit::Hearts).name(), "FiveOfHearts");
    assert_eq!(Card::new(Rank::Ace, Suit::Spades).name(), "AceOfSpades");
    assert_eq!(Card::new(Rank::Queen, Suit::Diamonds).name(), "QueenOfDiamonds");
    assert_eq!(Card::default().name(), "UnknownOfUnknown");
}

#[test]
fn from_string_reads_a_name() {
    let card = Card::from_string("JackOfClubs").unwrap();
    assert_eq!(card.rank, Rank::Jack);
    assert_eq!(card.suit, Suit::Clubs);
    assert_eq!(card.value(), 10);
}

#[test]
fn every_card_reads_back_from_its_name() {
    for rank in RANKS {
        for suit in SUITS {
            let card = Card::new(rank, suit);
            assert_eq!(Card::from_string(&card.name()).unwrap(), card);
        }
    }
}

#[test]
fn from_string_without_separator_fails() {
    let e = Card::from_string("FiveHearts").unwrap_err();
    assert_eq!(e.error_kind, CribbageErrorKind::ParseError);
    assert_eq!(
        e.message,
        "\"FiveHearts\" is an invalid Card because it couldn't be split by 'Of'"
    );
}

#[test]
fn from_string_with_two_separators_fails() {
    let e = Card::from_string("FiveOfOfHearts").unwrap_err();
    assert_eq!(e.error_kind, CribbageErrorKind::ParseError);
    assert_eq!(
        e.message,
        "\"FiveOfOfHearts\" is an invalid Card because it couldn't be split by 'Of'"
    );
    assert!(Card::from_string("FiveOfHeartsOf").is_err());
    assert!(Card::from_string("").is_err());
}

#[test]
fn from_string_with_bad_rank_names_the_token() {
    let e = Card::from_string("ElevenOfHearts").unwrap_err();
    assert_eq!(e.error_kind, CribbageErrorKind::ParseError);
    assert_eq!(
        e.message,
        "Error Parsing ordinal in: \"ElevenOfHearts\". \"Eleven\" is invalid"
    );
}

#[test]
fn from_string_with_bad_suit_names_the_token() {
    let e = Card::from_string("FourOFClubs").unwrap_err();
    assert_eq!(e.error_kind, CribbageErrorKind::ParseError);
    let e = Card::from_string("FourOfclubs").unwrap_err();
    assert_eq!(
        e.message,
        "Error Parsing suit in: \"FourOfclubs\". \"clubs\" is invalid"
    );
}

#[test]
fn from_string_reports_the_rank_before_the_suit() {
    let e = Card::from_string("fourOfclubs").unwrap_err();
    assert_eq!(
        e.message,
        "Error Parsing ordinal in: \"fourOfclubs\". \"four\" is invalid"
    );
}

#[test]
fn from_string_quotes_with_escapes() {
    let e = Card::from_string("Fi\"ve").unwrap_err();
    assert_eq!(
        e.message,
        "\"Fi\\\"ve\" is an invalid Card because it couldn't be split by 'Of'"
    );
}

#[test]
fn from_string_is_exact_about_case_and_space() {
    assert!(Card::from_string("fiveOfHearts").is_err());
    assert!(Card::from_string("FiveofHearts").is_err());
    assert!(Card::from_string(" FiveOfHearts").is_err());
    assert!(Card::from_string("FiveOfHearts ").is_err());
    assert!(Card::from_string("F\u{ef}veOfHearts").is_err());
}

#[test]
fn value_is_rank_up_to_ten() {
    let expected = [1, 2, 3, 4, 5, 6, 7, 8, 9, 10, 10, 10, 10, 0];
    for (rank, value) in RANKS.iter().zip(expected) {
        assert_eq!(Card::new(*rank, Suit::Clubs).value(), value);
        assert_eq!(rank.value(), value);
    }
}

#[test]
fn ordinal_runs_from_one_to_thirteen() {
    for (i, rank) in RANKS.iter().enumerate() {
        assert_eq!(rank.ordinal() as usize, i + 1);
        assert_eq!(Card::new(*rank, Suit::Hearts).rank() as usize, i + 1);
        assert_eq!(Card::new(*rank, Suit::Hearts).ordinal(), *rank);
    }
    for (i, suit) in SUITS.iter().enumerate() {
        assert_eq!(suit.ordinal() as usize, i + 1);
        assert_eq!(Card::new(Rank::Two, *suit).suit(), *suit);
    }
}

#[test]
fn from_index_walks_the_deck() {
    assert_eq!(Card::from_index(0), Card::new(Rank::Ace, Suit::Clubs));
    assert_eq!(Card::from_index(12), Card::new(Rank::King, Suit::Clubs));
    assert_eq!(Card::from_index(13), Card::new(Rank::Ace, Suit::Diamonds));
    assert_eq!(Card::from_index(30), Card::new(Rank::Five, Suit::Hearts));
    assert_eq!(Card::from_index(51), Card::new(Rank::King, Suit::Spades));
    assert_eq!(Card::from_index(22).value(), 10);
}

#[test]
fn from_index_gives_fifty_two_different_deck_cards() {
    let mut seen: Vec<Card> = Vec::new();
    for index in 0..52 {
        let card = Card::from_index(index);
        assert_ne!(card.rank, Rank::Unknown);
        assert_ne!(card.suit, Suit::Unknown);
        assert!(!seen.contains(&card));
        seen.push(card);
    }
    for rank in &RANKS[..13] {
        for suit in &SUITS[..4] {
            assert!(seen.contains(&Card::new(*rank, *suit)));
        }
    }
}

#[test]
fn cards_of_one_rank_differ_by_suit_only() {
    let hearts = Card::new(Rank::Five, Suit::Hearts);
    let clubs = Card::new(Rank::Five, Suit::Clubs);
    assert_ne!(hearts, clubs);
    assert_eq!(hearts.rank, clubs.rank);
    assert_eq!(hearts.value(), clubs.value());
    assert!(clubs < hearts);
    assert!(Card::new(Rank::Four, Suit::Spades) < clubs);
}

#[test]
fn default_is_the_placeholder() {
    let card = Card::default();
    assert_eq!(card.rank, Rank::Unknown);
    assert_eq!(card.suit, Suit::Unknown);
    assert_eq!(card.value(), 0);
}

#[test]
fn rank_and_suit_read_from_their_names() {
    assert_eq!(Rank::from_name("Seven"), Some(Rank::Seven));
    assert_eq!(Rank::from_name("Unknown"), Some(Rank::Unknown));
    assert_eq!(Rank::from_name("seven"), None);
    assert_eq!(Rank::from_name(""), None);
    assert_eq!(Suit::from_name("Spades"), Some(Suit::Spades));
    assert_eq!(Suit::from_name("Spade"), None);
    for rank in RANKS {
        assert_eq!(Rank::from_name(rank.name()), Some(rank));
    }
    for suit in SUITS {
        assert_eq!(Suit::from_name(suit.name()), Some(suit));
    }
}

#[test]
fn nth_follows_the_deck_order() {
    assert_eq!(Rank::nth(0), Some(Rank::Ace));
    assert_eq!(Rank::nth(12), Some(Rank::King));
    assert_eq!(Rank::nth(13), None);
    assert_eq!(Suit::nth(0), Some(Suit::Clubs));
    assert_eq!(Suit::nth(3), Some(Suit::Spades));
    assert_eq!(Suit::nth(4), None);
}
