use cribbage_library::cards::Rank::{
    Ace, Eight, Five, Four, Jack, King, Nine, Queen, Seven, Six, Ten, Three, Two,
};
use cribbage_library::cards::{Card, Rank, Suit};
use cribbage_library::cribbage_errors::CribbageErrorKind;
use cribbage_library::select_cards::{
    bad_hand_message, contains_card, crib_value, get_crib_cards, get_next_counted_card,
    select_crib_cards, weigh_pair,
};

fn c(rank: Rank, suit: Suit) -> Card {
    Card::new(rank, suit)
}

fn hand(names: &str) -> Vec<Card> {
    let mut hand: Vec<Card> = Vec::new();
    for card_name in names.split(',') {
        hand.push(Card::from_string(card_name).unwrap());
    }
    hand
}

fn check_next(counted_cards: Vec<Card>, cards_left: Vec<Card>, expected_card: Card, expected_go: bool) {
    match get_next_counted_card(counted_cards, cards_left) {
        Err(e) => panic!("an error returned: {:?}", e),
        Ok(card) => match card {
            Some(card) => {
                assert!(!expected_go);
                assert_eq!(card.name(), expected_card.name());
            }
            None => {
                assert!(expected_go, "Unexpected Go!");
            }
        },
    }
}

#[test]
fn first_card() {
    check_next(
        vec![],
        vec![c(Ace, Suit::Spades), c(Four, Suit::Spades), c(Six, Suit::Spades), c(Jack, Suit::Spades)],
        c(Four, Suit::Spades),
        false,
    );
}

#[test]
fn second_card_hit_fifteen() {
    check_next(
        vec![c(Four, Suit::Spades), c(Ten, Suit::Diamonds)],
        vec![c(Ace, Suit::Spades), c(Six, Suit::Spades), c(Jack, Suit::Spades)],
        c(Ace, Suit::Spades),
        false,
    );
}

#[test]
fn hit_31() {
    check_next(
        vec![c(Four, Suit::Spades), c(Ten, Suit::Diamonds), c(Ace, Suit::Spades), c(Jack, Suit::Diamonds)],
        vec![c(Six, Suit::Spades), c(Jack, Suit::Hearts)],
        c(Six, Suit::Spades),
        false,
    );
}

#[test]
fn induce_run() {
    check_next(
        vec![c(Four, Suit::Diamonds)],
        vec![c(Jack, Suit::Hearts), c(Three, Suit::Spades), c(Five, Suit::Spades), c(Jack, Suit::Spades)],
        c(Three, Suit::Spades),
        false,
    );
}

#[test]
fn run_of_4() {
    check_next(
        vec![c(Four, Suit::Diamonds), c(Three, Suit::Spades), c(Two, Suit::Diamonds)],
        vec![c(Six, Suit::Hearts), c(Five, Suit::Spades), c(Jack, Suit::Spades)],
        c(Five, Suit::Spades),
        false,
    );
}

#[test]
fn induce_3_of_a_kind() {
    check_next(
        vec![],
        vec![c(Six, Suit::Hearts), c(Five, Suit::Spades), c(Jack, Suit::Spades), c(Jack, Suit::Hearts)],
        c(Jack, Suit::Spades),
        false,
    );
}

#[test]
fn three_of_a_kind() {
    check_next(
        vec![c(Jack, Suit::Spades), c(Jack, Suit::Diamonds)],
        vec![c(Six, Suit::Hearts), c(Five, Suit::Spades), c(Jack, Suit::Hearts)],
        c(Jack, Suit::Hearts),
        false,
    );
}

#[test]
fn test_go() {
    check_next(
        vec![c(Jack, Suit::Spades), c(Jack, Suit::Diamonds), c(Jack, Suit::Hearts)],
        vec![c(Six, Suit::Hearts), c(Five, Suit::Spades)],
        c(Jack, Suit::Hearts),
        true,
    );
}

#[test]
fn test_select_crib_cards_hand_returns_three_cards() {
    // prepare test parameters
    let test_hand = "FiveOfHearts,FiveOfClubs,SixOfHearts,SixOfClubs";
    let mut hand: Vec<Card> = Vec::new();

    for card_name in test_hand.split(',') {
        hand.push(Card::from_string(card_name).unwrap());
    }

    // execute the method under test
    let crib = select_crib_cards(&hand, true);

    // expect an error
    match crib {
        Ok(_) => {
            assert!(false, "this should be an error");
        }
        Err(e) => {
            assert_eq!(
                e.error_kind,
                CribbageErrorKind::BadHand,
                "shoudl be a bad hand"
            );
        }
    };
}

#[test]
fn test_select_crib_cards_hand_returns_zero() {
    // prepare test parameters
    let test_hand = "FiveOfHearts,FiveOfClubs,SixOfHearts,SixOfClubs";
    let mut hand: Vec<Card> = Vec::new();

    for card_name in test_hand.split(',') {
        hand.push(Card::from_string(card_name).unwrap());
    }

    // execute the method under test: four cards are no hand to choose from
    let crib = select_crib_cards(&hand, true).unwrap_or_default();

    // returned crib len should equal 0 given the inputs
    assert_eq!(crib.len(), 0);
}

#[test]
fn select_cards_test_get_crib_cards_match_expected_length() {
    // prepare test parameters
    let test_hand = "FiveOfHearts,FiveOfClubs,SixOfHearts,SixOfClubs";
    let held_cards = "AceOfSpades,FourOfDiamonds,SixOfClubs,JackOfDiamonds";
    let mut hand: Vec<Card> = Vec::new();
    let mut held: Vec<Card> = Vec::new();

    for card_name in test_hand.split(',') {
        hand.push(Card::from_string(card_name).unwrap());
    }

    for held_name in held_cards.split(',') {
        held.push(Card::from_string(held_name).unwrap());
    }

    // execute the method under test
    let crib = get_crib_cards(&hand, &held);

    // returned crib len should equal 3 given the inputs
    assert_eq!(crib.len(), 3);
}

#[test]
fn test_get_crib_cards_match_expected_length() {
    // prepare test parameters
    let test_hand = "FiveOfHearts,FiveOfClubs,SixOfHearts,SixOfClubs";
    let held_cards = "AceOfSpades,FourOfDiamonds,SixOfClubs,JackOfDiamonds";
    let mut hand: Vec<Card> = Vec::new();
    let mut held: Vec<Card> = Vec::new();

    for card_name in test_hand.split(',') {
        hand.push(Card::from_string(card_name).unwrap());
    }

    for held_name in held_cards.split(',') {
        held.push(Card::from_string(held_name).unwrap());
    }

    // execute the method under test
    let crib = get_crib_cards(&hand, &held);

    // returned crib len should equal 3 given the inputs
    assert_eq!(crib.len(), 3);
}

#[test]
fn select_cards_test_get_crib_cards_all_match_length_zero() {
    // prepare test parameters
    let test_hand = "FiveOfHearts,FiveOfClubs,SixOfHearts,SixOfClubs";
    let held_cards = "FiveOfHearts,FiveOfClubs,SixOfHearts,SixOfClubs";
    let mut hand: Vec<Card> = Vec::new();
    let mut held: Vec<Card> = Vec::new();

    for card_name in test_hand.split(',') {
        hand.push(Card::from_string(card_name).unwrap());
    }

    for held_name in held_cards.split(',') {
        held.push(Card::from_string(held_name).unwrap());
    }

    // execute the method under test
    let crib = get_crib_cards(&hand, &held);

    // returned crib len should equal 0 given the inputs
    assert_eq!(crib.len(), 0);
}

#[test]
fn test_get_crib_cards_all_match_length_zero() {
    // prepare test parameters
    let test_hand = "FiveOfHearts,FiveOfClubs,SixOfHearts,SixOfClubs";
    let held_cards = "FiveOfHearts,FiveOfClubs,SixOfHearts,SixOfClubs";
    let mut hand: Vec<Card> = Vec::new();
    let mut held: Vec<Card> = Vec::new();

    for card_name in test_hand.split(',') {
        hand.push(Card::from_string(card_name).unwrap());
    }

    for held_name in held_cards.split(',') {
        held.push(Card::from_string(held_name).unwrap());
    }

    // execute the method under test
    let crib = get_crib_cards(&hand, &held);

    // returned crib len should equal 0 given the inputs
    assert_eq!(crib.len(), 0);
}

#[test]
fn select_cards_test_get_crib_cards_empty_input_length_zero() {
    // prepare test parameters
    let hand: Vec<Card> = Vec::new();
    let held: Vec<Card> = Vec::new();

    // execute the method under test
    let crib = get_crib_cards(&hand, &held);

    // returned crib len should equal 0 given the inputs
    assert_eq!(crib.len(), 0);
}

#[test]
fn test_get_crib_cards_empty_input_length_zero() {
    // prepare test parameters
    let hand: Vec<Card> = Vec::new();
    let held: Vec<Card> = Vec::new();

    // execute the method under test
    let crib = get_crib_cards(&hand, &held);

    // returned crib len should equal 0 given the inputs
    assert_eq!(crib.len(), 0);
}

#[test]
fn get_crib_cards_keeps_the_order_of_the_hand() {
    let full = hand("FiveOfHearts,FiveOfClubs,FiveOfSpades,JackOfDiamonds,SixOfClubs,FourOfDiamonds");
    let kept = hand("JackOfDiamonds,FiveOfHearts,FiveOfSpades,FourOfDiamonds");
    assert_eq!(
        get_crib_cards(&full, &kept),
        vec![c(Five, Suit::Clubs), c(Six, Suit::Clubs)]
    );
}

#[test]
fn contains_card_goes_by_rank_and_suit() {
    let cards = hand("FiveOfHearts,SixOfClubs");
    assert!(contains_card(&cards, &c(Six, Suit::Clubs)));
    assert!(!contains_card(&cards, &c(Six, Suit::Hearts)));
    assert!(!contains_card(&Vec::new(), &c(Six, Suit::Hearts)));
}

#[test]
fn select_crib_cards_for_your_crib_discards_six_and_four() {
    let six = hand("FiveOfHearts,FiveOfClubs,FiveOfSpades,JackOfDiamonds,SixOfClubs,FourOfDiamonds");
    let crib = select_crib_cards(&six, false).unwrap();
    assert_eq!(crib.len(), 2);
    assert!(crib.contains(&c(Six, Suit::Clubs)));
    assert!(crib.contains(&c(Four, Suit::Diamonds)));
}

#[test]
fn select_crib_cards_for_my_crib_discards_five_and_jack() {
    let six = hand("FiveOfHearts,FiveOfClubs,FiveOfSpades,JackOfDiamonds,SixOfClubs,FourOfDiamonds");
    let crib = select_crib_cards(&six, true).unwrap();
    assert_eq!(crib.len(), 2);
    assert!(crib.contains(&c(Five, Suit::Spades)));
    assert!(crib.contains(&c(Jack, Suit::Diamonds)));
}

#[test]
fn select_crib_cards_splits_the_six_cards() {
    let hands = [
        "FiveOfHearts,FiveOfClubs,FiveOfSpades,JackOfDiamonds,SixOfClubs,FourOfDiamonds",
        "FourOfHearts,FiveOfHearts,SixOfSpades,JackOfHearts,QueenOfHearts,SixOfDiamonds",
        "AceOfSpades,TwoOfSpades,ThreeOfSpades,KingOfHearts,QueenOfClubs,NineOfDiamonds",
        "TwoOfClubs,TwoOfDiamonds,TwoOfHearts,TwoOfSpades,AceOfClubs,AceOfHearts",
    ];
    for names in hands {
        for my_crib in [true, false] {
            let six = hand(names);
            let crib = select_crib_cards(&six, my_crib).unwrap();
            assert_eq!(crib.len(), 2);
            assert_ne!(crib[0], crib[1]);
            assert!(six.contains(&crib[0]));
            assert!(six.contains(&crib[1]));
            let kept: Vec<Card> = six.iter().filter(|card| !crib.contains(card)).cloned().collect();
            assert_eq!(kept.len(), 4);
        }
    }
}

#[test]
fn select_crib_cards_takes_the_first_of_equal_hands() {
    // whichever two tens go, the hand kept scores the same and the discard is
    // worth the same: the first way found stays
    let six = hand("TenOfClubs,TenOfDiamonds,TenOfHearts,TenOfSpades,TwoOfClubs,SevenOfHearts");
    let crib = select_crib_cards(&six, false).unwrap();
    assert_eq!(crib, vec![c(Two, Suit::Clubs), c(Seven, Suit::Hearts)]);
}

#[test]
fn select_crib_cards_wants_six_cards() {
    for n in [0usize, 1, 5, 7, 12] {
        let cards: Vec<Card> = (0..n).map(Card::from_index).collect();
        let e = select_crib_cards(&cards, true).unwrap_err();
        assert_eq!(e.error_kind, CribbageErrorKind::BadHand);
        assert_eq!(
            e.message,
            format!("a hand should have 6 cards to select a crib.  you passed in {}", n)
        );
    }
}

#[test]
fn bad_hand_message_writes_the_number() {
    assert_eq!(
        bad_hand_message(0),
        "a hand should have 6 cards to select a crib.  you passed in 0"
    );
    assert_eq!(
        bad_hand_message(1234567890),
        "a hand should have 6 cards to select a crib.  you passed in 1234567890"
    );
}

#[test]
fn crib_value_is_the_table_value_in_hundredths() {
    // two fives: 8.95 to my crib, 9.37 to yours
    let fives = vec![c(Five, Suit::Hearts), c(Five, Suit::Clubs)];
    assert_eq!(crib_value(&fives, true), 895);
    assert_eq!(crib_value(&fives, false), 937);
    // ace and king: 3.42 and 4.30; one hundredth more in one suit
    let mixed = vec![c(Ace, Suit::Hearts), c(King, Suit::Clubs)];
    assert_eq!(crib_value(&mixed, true), 342);
    assert_eq!(crib_value(&mixed, false), 430);
    let suited = vec![c(King, Suit::Clubs), c(Ace, Suit::Clubs)];
    assert_eq!(crib_value(&suited, true), 343);
    assert_eq!(crib_value(&suited, false), 431);
    // ten and king: the least of the tables
    let low = vec![c(Ten, Suit::Clubs), c(King, Suit::Hearts)];
    assert_eq!(crib_value(&low, true), 286);
    assert_eq!(crib_value(&low, false), 388);
}

#[test]
fn next_card_alone_is_played_if_it_may_be() {
    check_next(vec![c(Ten, Suit::Clubs), c(Ten, Suit::Hearts)], vec![c(Jack, Suit::Clubs)], c(Jack, Suit::Clubs), false);
    check_next(
        vec![c(Ten, Suit::Clubs), c(Ten, Suit::Hearts), c(Five, Suit::Hearts)],
        vec![c(Jack, Suit::Clubs)],
        c(Jack, Suit::Clubs),
        true,
    );
}

#[test]
fn next_card_of_an_empty_hand_is_a_go() {
    assert_eq!(get_next_counted_card(vec![], vec![]).unwrap(), None);
}

#[test]
fn next_card_first_of_four() {
    // a pair of aces to play into: the higher of the two by suit goes
    let card = get_next_counted_card(vec![], hand("AceOfSpades,AceOfHearts,TwoOfClubs,TenOfDiamonds")).unwrap();
    assert_eq!(card, Some(c(Ace, Suit::Spades)));
}

#[test]
fn next_card_takes_the_pair() {
    let card = get_next_counted_card(
        hand("AceOfSpades,ThreeOfClubs,TwoOfClubs,TenOfHearts"),
        hand("TenOfClubs,AceOfHearts"),
    )
    .unwrap();
    assert_eq!(card, Some(c(Ten, Suit::Clubs)));
}

#[test]
fn next_card_is_a_go_at_thirty() {
    let card = get_next_counted_card(
        hand("TenOfClubs,TenOfHearts,TenOfSpades"),
        hand("ThreeOfClubs,TwoOfClubs"),
    )
    .unwrap();
    assert_eq!(card, None);
}

#[test]
fn next_card_the_only_playable_one() {
    // count 25: the queen may not go, the six may
    let card = get_next_counted_card(
        hand("TenOfClubs,TenOfHearts,FiveOfSpades"),
        hand("QueenOfDiamonds,SixOfClubs,KingOfClubs"),
    )
    .unwrap();
    assert_eq!(card, Some(c(Six, Suit::Clubs)));
}

#[test]
fn next_card_holds_back_a_five() {
    // no points, no plan: the highest goes, unless it is worth five
    let card = get_next_counted_card(vec![c(Nine, Suit::Clubs)], hand("FiveOfHearts,AceOfClubs")).unwrap();
    assert_eq!(card, Some(c(Ace, Suit::Clubs)));
    let card = get_next_counted_card(vec![c(Nine, Suit::Clubs)], hand("EightOfHearts,AceOfClubs")).unwrap();
    assert_eq!(card, Some(c(Eight, Suit::Hearts)));
}

#[test]
fn weigh_pair_prefers_the_heavier_plan() {
    // a pair of sevens at count 0: weight 10, the second is played
    let sevens = vec![c(Seven, Suit::Clubs), c(Seven, Suit::Hearts)];
    assert_eq!(weigh_pair(0, Card::default(), &sevens, 0), (10, c(Seven, Suit::Hearts)));
    // a pair of fives is left alone
    let fives = vec![c(Five, Suit::Clubs), c(Five, Suit::Hearts)];
    assert_eq!(weigh_pair(0, Card::default(), &fives, 0), (0, Card::default()));
    // three sevens would pass 31 from count 11
    assert_eq!(weigh_pair(0, Card::default(), &sevens, 11), (0, Card::default()));
    // two and three: a run to start (5), then a fifteen to come (8)
    let low = vec![c(Two, Suit::Clubs), c(Three, Suit::Hearts)];
    assert_eq!(weigh_pair(0, Card::default(), &low, 0), (8, c(Three, Suit::Hearts)));
    // seven and eight: one apart, weight 5, the higher
    let near = vec![c(Seven, Suit::Clubs), c(Eight, Suit::Hearts)];
    assert_eq!(weigh_pair(0, Card::default(), &near, 0), (5, c(Eight, Suit::Hearts)));
    // three and five: two apart, the higher is a five, so the lower
    let gap = vec![c(Three, Suit::Clubs), c(Five, Suit::Hearts)];
    assert_eq!(weigh_pair(0, Card::default(), &gap, 0), (5, c(Three, Suit::Clubs)));
    // seven and nine: two apart, the higher
    let wide = vec![c(Seven, Suit::Clubs), c(Nine, Suit::Hearts)];
    assert_eq!(weigh_pair(0, Card::default(), &wide, 0), (5, c(Nine, Suit::Hearts)));
    // a choice of weight 8 is not given up for a run
    assert_eq!(weigh_pair(8, c(King, Suit::Clubs), &near, 0), (8, c(King, Suit::Clubs)));
    // five and six: a twenty-one to come
    let eleven = vec![c(Five, Suit::Clubs), c(Six, Suit::Hearts)];
    assert_eq!(weigh_pair(0, Card::default(), &eleven, 0), (8, c(Six, Suit::Hearts)));
    // a choice of weight 10 stays
    assert_eq!(weigh_pair(10, c(King, Suit::Clubs), &eleven, 0), (10, c(King, Suit::Clubs)));
}
