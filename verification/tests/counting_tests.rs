use cribbage_library::cards::Rank::{
    Ace, Eight, Five, Four, Jack, King, Nine, Queen, Seven, Six, Ten, Three, Two,
};
use cribbage_library::cards::{Card, Rank, Suit};
use cribbage_library::counting::{
    longest_run, score_counting_cards_played, tail_from, trailing_matches,
};
use cribbage_library::cribbage_errors::CribbageErrorKind;
use cribbage_library::scoring::{CombinationKind, CombinationName};

fn c(rank: Rank, suit: Suit) -> Card {
    Card::new(rank, suit)
}

fn check_play(cards_played: &[Card], card: Card, expected_score: u32, expect_error: bool) {
    match score_counting_cards_played(cards_played, card) {
        Ok(s) => {
            assert!(!expect_error);
            assert_eq!(expected_score, s.total_score);
        }
        Err(e) => {
            assert!(expect_error, "Error in scoring: {:?}", e);
        }
    }
}

#[test]
fn counting_first_card() {
    check_play(&[], c(Five, Suit::Diamonds), 0, false);
}

#[test]
fn counting_2_fives() {
    check_play(&[c(Five, Suit::Hearts)], c(Five, Suit::Diamonds), 2, false);
}

#[test]
fn counting_3_fives() {
    check_play(&[c(Five, Suit::Hearts), c(Five, Suit::Clubs)], c(Five, Suit::Diamonds), 8, false);
}

#[test]
fn counting_4_fives() {
    check_play(&[c(Five, Suit::Hearts), c(Five, Suit::Clubs), c(Five, Suit::Diamonds)], c(Five, Suit::Spades), 12, false);
}

#[test]
fn counting_no_points() {
    check_play(&[c(Five, Suit::Hearts), c(Five, Suit::Clubs), c(Five, Suit::Diamonds), c(Five, Suit::Spades)], c(Ten, Suit::Spades), 0, false);
}

#[test]
fn counting_expect_error() {
    check_play(&[c(Five, Suit::Hearts), c(Five, Suit::Clubs), c(Five, Suit::Diamonds), c(Five, Suit::Spades), c(Ten, Suit::Spades)], c(Ten, Suit::Clubs), 0, true);
}

#[test]
fn counting_31() {
    check_play(&[c(Five, Suit::Hearts), c(Five, Suit::Clubs), c(Five, Suit::Diamonds), c(Five, Suit::Spades), c(Ten, Suit::Spades)], c(Ace, Suit::Clubs), 2, false);
}

#[test]
fn run_of_three() {
    check_play(&[c(Five, Suit::Hearts), c(Four, Suit::Clubs)], c(Six, Suit::Clubs), 5, false);
}

#[test]
fn no_run_too_short() {
    check_play(&[c(Five, Suit::Hearts)], c(Six, Suit::Clubs), 0, false);
}

#[test]
fn run_of_four() {
    check_play(&[c(Five, Suit::Hearts), c(Four, Suit::Clubs), c(Six, Suit::Clubs)], c(Three, Suit::Clubs), 4, false);
}

#[test]
fn run_of_five() {
    check_play(&[c(Five, Suit::Hearts), c(Four, Suit::Clubs), c(Six, Suit::Clubs), c(Two, Suit::Clubs)], c(Three, Suit::Clubs), 5, false);
}

#[test]
fn run_of_six() {
    check_play(&[c(Five, Suit::Hearts), c(Four, Suit::Clubs), c(Six, Suit::Clubs), c(Two, Suit::Clubs), c(Three, Suit::Clubs)], c(Seven, Suit::Clubs), 6, false);
}

#[test]
fn run_of_seven() {
    check_play(&[c(Five, Suit::Hearts), c(Four, Suit::Clubs), c(Six, Suit::Clubs), c(Two, Suit::Clubs), c(Three, Suit::Clubs), c(Seven, Suit::Clubs)], c(Ace, Suit::Clubs), 7, false);
}

#[test]
fn second_run_of_three() {
    check_play(&[c(Five, Suit::Hearts), c(Four, Suit::Clubs), c(Six, Suit::Clubs)], c(Five, Suit::Clubs), 3, false);
}

#[test]
fn run_of_3_on_the_end() {
    check_play(&[c(Five, Suit::Hearts), c(Four, Suit::Clubs), c(Six, Suit::Clubs), c(Five, Suit::Clubs)], c(Four, Suit::Clubs), 3, false);
}

#[test]
fn broken_run() {
    check_play(&[c(Five, Suit::Hearts), c(Four, Suit::Clubs), c(Four, Suit::Clubs), c(Three, Suit::Clubs)], c(Six, Suit::Clubs), 0, false);
}

#[test]
fn fifteen_and_run_of_five() {
    let played = [c(Ace, Suit::Hearts), c(Three, Suit::Clubs), c(Five, Suit::Diamonds), c(Four, Suit::Clubs)];
    let score = score_counting_cards_played(&played, c(Two, Suit::Clubs)).unwrap();
    assert_eq!(score.total_score, 7);
    assert_eq!(score.combinations.len(), 2);
    assert_eq!(score.combinations[0].name, CombinationName::Fifteen);
    assert_eq!(score.combinations[0].points, 2);
    assert_eq!(score.combinations[0].cards.len(), 5);
    assert_eq!(score.combinations[1].name, CombinationName::RunOfFive);
    assert_eq!(score.combinations[1].points, 5);
    assert_eq!(
        score.combinations[1].cards,
        vec![
            c(Ace, Suit::Hearts),
            c(Two, Suit::Clubs),
            c(Three, Suit::Clubs),
            c(Four, Suit::Clubs),
            c(Five, Suit::Diamonds)
        ]
    );
}

#[test]
fn count_of_thirty_two_is_an_error() {
    let played = [c(Ten, Suit::Hearts), c(Ten, Suit::Clubs), c(Ten, Suit::Diamonds)];
    let e = score_counting_cards_played(&played, c(Two, Suit::Clubs)).unwrap_err();
    assert_eq!(e.error_kind, CribbageErrorKind::BadCount);
    assert_eq!(e.message, "invalid card + count > 31");
    assert!(score_counting_cards_played(&played, c(Ace, Suit::Clubs)).is_ok());
}

#[test]
fn thirty_one_scores_two() {
    let played = [c(Ten, Suit::Hearts), c(Ten, Suit::Clubs), c(Ten, Suit::Diamonds)];
    let score = score_counting_cards_played(&played, c(Ace, Suit::Clubs)).unwrap();
    assert_eq!(score.total_score, 2);
    assert_eq!(score.combinations.len(), 1);
    assert_eq!(score.combinations[0].name, CombinationName::ThirtyOne);
    assert_eq!(score.combinations[0].kind, CombinationKind::ThirtyOne);
}

#[test]
fn pair_counts_only_cards_played_just_before() {
    // the five before the ten does not count
    let played = [c(Five, Suit::Hearts), c(Ten, Suit::Clubs)];
    let score = score_counting_cards_played(&played, c(Five, Suit::Clubs)).unwrap();
    assert_eq!(score.total_score, 0);
    assert_eq!(score.combinations.len(), 0);
}

#[test]
fn rank_match_holds_the_matching_cards() {
    let played = [c(Two, Suit::Hearts), c(Six, Suit::Clubs), c(Six, Suit::Hearts)];
    let score = score_counting_cards_played(&played, c(Six, Suit::Spades)).unwrap();
    assert_eq!(score.total_score, 6);
    assert_eq!(score.combinations[0].name, CombinationName::RoyalPair);
    assert_eq!(score.combinations[0].rank_info, Six);
    assert_eq!(
        score.combinations[0].cards,
        vec![c(Six, Suit::Clubs), c(Six, Suit::Hearts), c(Six, Suit::Spades)]
    );
}

#[test]
fn four_of_a_rank_is_the_most_that_counts() {
    let played = [c(Ace, Suit::Hearts), c(Ace, Suit::Clubs), c(Ace, Suit::Diamonds), c(Ace, Suit::Spades)];
    assert_eq!(trailing_matches(&played, c(Ace, Suit::Hearts)), 3);
    assert_eq!(trailing_matches(&played[..2], c(Ace, Suit::Hearts)), 2);
    assert_eq!(trailing_matches(&played, c(Two, Suit::Hearts)), 0);
    assert_eq!(trailing_matches(&[], c(Two, Suit::Hearts)), 0);
}

#[test]
fn only_the_longest_run_scores() {
    let all = vec![c(Nine, Suit::Hearts), c(Three, Suit::Clubs), c(Two, Suit::Clubs), c(Four, Suit::Clubs), c(Five, Suit::Hearts)];
    let run = longest_run(&all).unwrap();
    assert_eq!(run.name, CombinationName::RunOfFour);
    assert_eq!(run.points, 4);
    assert!(longest_run(&all[..2].to_vec()).is_none());
    assert!(longest_run(&vec![c(Nine, Suit::Hearts), c(Three, Suit::Clubs), c(Two, Suit::Clubs)]).is_none());
}

#[test]
fn tail_from_gives_the_last_cards() {
    let all = vec![c(Nine, Suit::Hearts), c(Three, Suit::Clubs), c(Two, Suit::Clubs)];
    assert_eq!(tail_from(&all, 1), vec![c(Three, Suit::Clubs), c(Two, Suit::Clubs)]);
    assert_eq!(tail_from(&all, 3), vec![]);
    assert_eq!(tail_from(&all, 0), all);
}

#[test]
fn the_played_cards_are_left_as_they_were() {
    let played = vec![c(Five, Suit::Hearts), c(Four, Suit::Clubs)];
    let before = played.clone();
    let _ = score_counting_cards_played(&played, c(Six, Suit::Clubs));
    assert_eq!(played, before);
}
