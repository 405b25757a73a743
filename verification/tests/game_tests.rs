use cribbage_library::cards::Rank::{Ace, Five, Jack, Ten, Two};
use cribbage_library::cards::{Card, Rank, Suit};
use cribbage_library::cribbage_errors::CribbageErrorKind;
use cribbage_library::game::{
    deal_hand, play_next_card, random_hand, shuffled_deck, CutCards, Owner, ParsedHand,
};
use cribbage_library::scoring::CombinationName;

fn c(rank: Rank, suit: Suit) -> Card {
    Card::new(rank, suit)
}

fn hand(names: &str) -> Vec<Card> {
    ParsedHand::from_string(names.to_string()).unwrap().hand
}

#[test]
fn parsed_hand_reads_the_cards_in_order() {
    let parsed = ParsedHand::from_string("FiveOfHearts,JackOfClubs,AceOfSpades".to_string()).unwrap();
    assert_eq!(
        parsed.hand,
        vec![c(Five, Suit::Hearts), c(Jack, Suit::Clubs), c(Ace, Suit::Spades)]
    );
    let one = ParsedHand::from_string("TenOfDiamonds".to_string()).unwrap();
    assert_eq!(one.hand, vec![c(Ten, Suit::Diamonds)]);
}

#[test]
fn parsed_hand_stops_at_the_first_bad_name() {
    let e = ParsedHand::from_string("FiveOfHearts,SixOfHeart,FourOFClubs".to_string()).unwrap_err();
    assert_eq!(e.error_kind, CribbageErrorKind::ParseError);
    assert_eq!(
        e.message,
        "Error Parsing suit in: \"SixOfHeart\". \"Heart\" is invalid"
    );
}

#[test]
fn parsed_hand_takes_no_empty_name() {
    for text in ["", ",", "FiveOfHearts,", ",FiveOfHearts", "FiveOfHearts,,SixOfClubs"] {
        let e = ParsedHand::from_string(text.to_string()).unwrap_err();
        assert_eq!(e.error_kind, CribbageErrorKind::ParseError);
        assert_eq!(
            e.message,
            "\"\" is an invalid Card because it couldn't be split by 'Of'"
        );
    }
}

#[test]
fn cut_cards_are_the_cards_at_the_places() {
    let cut = CutCards::new(1, 8).unwrap();
    assert_eq!(cut.player, c(Two, Suit::Clubs));
    assert_eq!(cut.computer, c(Rank::Nine, Suit::Clubs));
    let cut = CutCards::new(51, 0).unwrap();
    assert_eq!(cut.player, c(Rank::King, Suit::Spades));
    assert_eq!(cut.computer, c(Ace, Suit::Clubs));
}

#[test]
fn cut_beyond_the_deck_is_a_bad_card() {
    for (p, q) in [(52, 0), (0, 52), (99, 99), (usize::MAX, 3)] {
        let e = CutCards::new(p, q).unwrap_err();
        assert_eq!(e.error_kind, CribbageErrorKind::BadCard);
        assert_eq!(e.message, "card index can't be > 51");
    }
}

#[test]
fn cut_of_one_rank_is_a_tie() {
    assert!(CutCards::is_tie(0, 13));
    assert!(CutCards::is_tie(5, 44));
    assert!(CutCards::is_tie(7, 7));
    assert!(!CutCards::is_tie(0, 1));
    assert!(!CutCards::is_tie(12, 13));
}

#[test]
fn deal_gives_the_cards_in_turn() {
    let places: Vec<usize> = vec![21, 49, 41, 15, 46, 17, 34, 24, 22, 38, 19, 31, 20];
    for is_computer_crib in [true, false] {
        let dealt = deal_hand(is_computer_crib, &places).unwrap();
        assert_eq!(dealt.shared_card, Card::from_index(20));
        assert_eq!(dealt.random_cards.len(), 13);
        assert_eq!(dealt.random_cards[0].card, Card::from_index(20));
        assert_eq!(dealt.random_cards[0].owner, Owner::Shared);
        let mut computer: Vec<Card> = Vec::new();
        for i in 0..12 {
            let card = dealt.random_cards[i + 1];
            assert_eq!(card.card, Card::from_index(places[i]));
            let first_to_player = is_computer_crib;
            let to_player = (i % 2 == 0) == first_to_player;
            assert_eq!(card.owner, if to_player { Owner::Player } else { Owner::Computer });
            if !to_player {
                computer.push(card.card);
            }
        }
        assert_eq!(computer.len(), 6);
        assert_eq!(dealt.computer_crib_cards.len(), 2);
        for card in &dealt.computer_crib_cards {
            assert!(computer.contains(card));
        }
        assert_eq!(
            dealt.computer_crib_cards,
            cribbage_library::select_cards::select_crib_cards(&computer, true).unwrap()
        );
    }
}

#[test]
fn deal_wants_thirteen_places() {
    let places: Vec<usize> = (0..12).collect();
    assert!(deal_hand(true, &places).is_none());
    assert!(deal_hand(false, &Vec::new()).is_none());
}

#[test]
fn shuffled_deck_holds_each_place_once() {
    for _ in 0..20 {
        let mut deck = shuffled_deck();
        assert_eq!(deck.len(), 51);
        deck.sort();
        assert_eq!(deck, (0..51).collect::<Vec<usize>>());
    }
}

#[test]
fn shuffled_deck_is_not_always_in_order() {
    let ordered: Vec<usize> = (0..51).collect();
    assert!((0..20).any(|_| shuffled_deck() != ordered));
}

#[test]
fn random_hand_is_a_deal_of_its_deck() {
    for is_computer_crib in [true, false] {
        let (dealt, deck) = random_hand(is_computer_crib);
        assert_eq!(deck.len(), 51);
        assert_eq!(dealt.random_cards.len(), 13);
        assert_eq!(dealt.computer_crib_cards.len(), 2);
        assert_eq!(dealt.shared_card, Card::from_index(deck[12]));
        let again = deal_hand(is_computer_crib, &deck).unwrap();
        assert_eq!(again.random_cards, dealt.random_cards);
        assert_eq!(again.computer_crib_cards, dealt.computer_crib_cards);
    }
}

#[test]
fn random_card_names_a_card() {
    for _ in 0..50 {
        let name = Card::random_card();
        let card = Card::from_string(&name).unwrap();
        assert!(card.rank <= Rank::Queen);
        assert!(card.suit <= Suit::Hearts);
    }
}

#[test]
fn random_card_is_not_always_the_same() {
    let first = Card::random_card();
    assert!((0..200).any(|_| Card::random_card() != first));
}

#[test]
fn play_next_card_scores_the_card() {
    let (card, score) = play_next_card(
        hand("AceOfSpades,ThreeOfClubs,TwoOfClubs,TenOfHearts"),
        hand("TenOfClubs,AceOfHearts"),
    );
    assert_eq!(card, Some(c(Ten, Suit::Clubs)));
    assert_eq!(score.total_score, 2);
    assert_eq!(score.combinations.len(), 1);
    assert_eq!(score.combinations[0].name, CombinationName::Pair);
}

#[test]
fn play_next_card_first_card_scores_nothing() {
    let (card, score) = play_next_card(vec![], hand("AceOfSpades,AceOfHearts,TwoOfClubs,TenOfDiamonds"));
    assert_eq!(card, Some(c(Ace, Suit::Spades)));
    assert_eq!(score.total_score, 0);
    assert_eq!(score.combinations.len(), 0);
}

#[test]
fn play_next_card_go_scores_nothing() {
    let (card, score) = play_next_card(
        hand("TenOfClubs,TenOfHearts,TenOfSpades"),
        hand("ThreeOfClubs,TwoOfClubs"),
    );
    assert_eq!(card, None);
    assert_eq!(score.total_score, 0);
    assert_eq!(score.combinations.len(), 0);
}
