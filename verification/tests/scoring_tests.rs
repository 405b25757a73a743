use cribbage_library::cards::Rank::{
    Ace, Eight, Five, Four, Jack, King, Nine, Queen, Seven, Six, Ten, Three, Two,
};
use cribbage_library::cards::{Card, Rank, Suit};
use cribbage_library::scoring::{
    nob_score, score, score_fifteen, score_flush, score_hand, score_pair, score_run, Combination,
    CombinationKind, CombinationName, Score,
};

fn c(rank: Rank, suit: Suit) -> Card {
    Card::new(rank, suit)
}

fn names(score: &Score) -> Vec<CombinationName> {
    score.combinations.iter().map(|combi| combi.name).collect()
}

fn check_totals(
    player_hand: [Card; 4],
    computer_hand: [Card; 4],
    crib_hand: [Card; 4],
    shared_card: Card,
    expected_player_score: u32,
    expected_computer_score: u32,
    expected_crib_score: u32,
) {
    let player_score = score_hand(player_hand.to_vec(), Some(shared_card), false);
    let crib_score = score_hand(crib_hand.to_vec(), Some(shared_card), true);
    let computer_score = score_hand(computer_hand.to_vec(), Some(shared_card), false);
    assert_eq!(expected_player_score, player_score.total_score);
    assert_eq!(expected_computer_score, computer_score.total_score);
    assert_eq!(expected_crib_score, crib_score.total_score);
}

#[test]
fn player_3_fives_and_a_jack_cut_the_5() {
    check_totals(
        [c(Five, Suit::Hearts), c(Five, Suit::Clubs), c(Five, Suit::Spades), c(Jack, Suit::Diamonds)],
        [c(Ace, Suit::Spades), c(Four, Suit::Diamonds), c(Six, Suit::Spades), c(Jack, Suit::Hearts)],
        [c(Ace, Suit::Clubs), c(Two, Suit::Clubs), c(Three, Suit::Clubs), c(Four, Suit::Clubs)],
        c(Five, Suit::Diamonds),
        29,
        9,
        7,
    );
}

#[test]
fn two_pair_many_15s_double_run_of_4() {
    check_totals(
        [c(Five, Suit::Hearts), c(Five, Suit::Clubs), c(Six, Suit::Hearts), c(Six, Suit::Clubs)],
        [c(Ace, Suit::Spades), c(Four, Suit::Diamonds), c(Six, Suit::Spades), c(Jack, Suit::Diamonds)],
        [c(Ace, Suit::Clubs), c(Two, Suit::Clubs), c(Three, Suit::Clubs), c(Four, Suit::Clubs)],
        c(Four, Suit::Hearts),
        24,
        8,
        10,
    );
}

#[test]
fn flush_nibs_15_double_run_no_flush_in_crib() {
    check_totals(
        [c(Five, Suit::Hearts), c(Six, Suit::Clubs), c(Seven, Suit::Hearts), c(Jack, Suit::Hearts)],
        [c(Ace, Suit::Spades), c(Four, Suit::Diamonds), c(Six, Suit::Spades), c(Jack, Suit::Diamonds)],
        [c(Ace, Suit::Clubs), c(Two, Suit::Clubs), c(Three, Suit::Clubs), c(Four, Suit::Clubs)],
        c(King, Suit::Hearts),
        12,
        4,
        8,
    );
}

#[test]
fn two_pair() {
    check_totals(
        [c(Five, Suit::Hearts), c(Five, Suit::Clubs), c(Six, Suit::Hearts), c(Six, Suit::Clubs)],
        [c(Ace, Suit::Spades), c(Four, Suit::Diamonds), c(Six, Suit::Spades), c(Jack, Suit::Diamonds)],
        [c(Ace, Suit::Clubs), c(Two, Suit::Clubs), c(Three, Suit::Clubs), c(Four, Suit::Clubs)],
        c(King, Suit::Diamonds),
        8,
        5,
        8,
    );
}

#[test]
fn player_3_fives_and_his_nibs() {
    check_totals(
        [c(Five, Suit::Hearts), c(Five, Suit::Clubs), c(Four, Suit::Spades), c(Jack, Suit::Diamonds)],
        [c(Ace, Suit::Spades), c(Four, Suit::Diamonds), c(Six, Suit::Spades), c(Jack, Suit::Hearts)],
        [c(Ace, Suit::Clubs), c(Two, Suit::Clubs), c(Three, Suit::Clubs), c(Four, Suit::Clubs)],
        c(Five, Suit::Diamonds),
        15,
        9,
        7,
    );
}

#[test]
fn four_twos_and_a_nine() {
    check_totals(
        [c(Two, Suit::Hearts), c(Two, Suit::Clubs), c(Two, Suit::Spades), c(Two, Suit::Diamonds)],
        [c(Ace, Suit::Spades), c(Four, Suit::Diamonds), c(Six, Suit::Spades), c(Jack, Suit::Hearts)],
        [c(Ace, Suit::Clubs), c(Seven, Suit::Clubs), c(Three, Suit::Clubs), c(Four, Suit::Clubs)],
        c(Nine, Suit::Diamonds),
        20,
        4,
        2,
    );
}

#[test]
fn four_threes_and_a_nine() {
    check_totals(
        [c(Three, Suit::Hearts), c(Three, Suit::Clubs), c(Three, Suit::Spades), c(Three, Suit::Diamonds)],
        [c(Ace, Suit::Spades), c(Four, Suit::Diamonds), c(Six, Suit::Spades), c(Jack, Suit::Hearts)],
        [c(Ace, Suit::Clubs), c(Seven, Suit::Clubs), c(Three, Suit::Clubs), c(Four, Suit::Clubs)],
        c(Nine, Suit::Diamonds),
        24,
        4,
        2,
    );
}

#[test]
fn fours_fives_and_sixes() {
    check_totals(
        [c(Four, Suit::Hearts), c(Five, Suit::Clubs), c(Five, Suit::Spades), c(Six, Suit::Diamonds)],
        [c(Two, Suit::Spades), c(Four, Suit::Diamonds), c(Jack, Suit::Spades), c(Eight, Suit::Hearts)],
        [c(Ace, Suit::Clubs), c(Seven, Suit::Clubs), c(Three, Suit::Clubs), c(Four, Suit::Clubs)],
        c(Six, Suit::Hearts),
        24,
        0,
        2,
    );
}

#[test]
fn highest_five_point_flush() {
    check_totals(
        [c(Five, Suit::Hearts), c(Ten, Suit::Hearts), c(Jack, Suit::Hearts), c(Queen, Suit::Hearts)],
        [c(Two, Suit::Spades), c(Four, Suit::Diamonds), c(Jack, Suit::Spades), c(Eight, Suit::Hearts)],
        [c(Ace, Suit::Clubs), c(Seven, Suit::Clubs), c(Three, Suit::Clubs), c(Four, Suit::Clubs)],
        c(King, Suit::Hearts),
        18,
        0,
        4,
    );
}

#[test]
fn twenty_nine_hand() {
    let hand = vec![c(Five, Suit::Hearts), c(Five, Suit::Clubs), c(Five, Suit::Spades), c(Jack, Suit::Diamonds)];
    let score = score_hand(hand, Some(c(Five, Suit::Diamonds)), false);
    assert_eq!(score.total_score, 29);
    let found = names(&score);
    assert_eq!(found.iter().filter(|n| **n == CombinationName::Nob).count(), 1);
    assert_eq!(found.iter().filter(|n| **n == CombinationName::Fifteen).count(), 8);
    assert_eq!(found.iter().filter(|n| **n == CombinationName::DoubleRoyalPair).count(), 1);
    assert_eq!(found.len(), 10);
}

#[test]
fn double_run_of_four_with_two_pairs() {
    let hand = vec![c(Five, Suit::Hearts), c(Five, Suit::Clubs), c(Six, Suit::Hearts), c(Six, Suit::Clubs)];
    let score = score_hand(hand, Some(c(Four, Suit::Hearts)), false);
    assert_eq!(score.total_score, 24);
    let found = names(&score);
    assert_eq!(found.iter().filter(|n| **n == CombinationName::RunOfThree).count(), 4);
    assert_eq!(found.iter().filter(|n| **n == CombinationName::Pair).count(), 2);
    assert_eq!(found.iter().filter(|n| **n == CombinationName::Fifteen).count(), 4);
}

#[test]
fn five_five_five_jack_with_a_four() {
    let hand = vec![c(Five, Suit::Hearts), c(Five, Suit::Clubs), c(Five, Suit::Spades), c(Jack, Suit::Diamonds)];
    let score = score_hand(hand, Some(c(Four, Suit::Diamonds)), false);
    assert_eq!(score.total_score, 15);
    assert_eq!(score.combinations.len(), 6);
    let found = names(&score);
    assert!(found.contains(&CombinationName::Nob));
    assert!(found.contains(&CombinationName::Fifteen));
    assert!(found.contains(&CombinationName::RoyalPair));
}

#[test]
fn his_nobs_alone_scores_one() {
    let hand = vec![c(Jack, Suit::Hearts), c(Ace, Suit::Clubs), c(Three, Suit::Diamonds), c(Seven, Suit::Spades)];
    let score = score_hand(hand, Some(c(Nine, Suit::Hearts)), false);
    assert_eq!(names(&score), vec![CombinationName::Nob]);
    assert_eq!(score.total_score, 1);
}

#[test]
fn hand_without_starter() {
    let hand = vec![c(Five, Suit::Hearts), c(Five, Suit::Clubs), c(Five, Suit::Spades), c(Jack, Suit::Diamonds)];
    let score = score_hand(hand, None, false);
    // three fifteens with the jack, one of three fives, and a royal pair
    assert_eq!(score.total_score, 14);
}

#[test]
fn flush_of_four_is_none_in_a_crib() {
    let hand = vec![c(Two, Suit::Hearts), c(Six, Suit::Hearts), c(Eight, Suit::Hearts), c(Queen, Suit::Hearts)];
    let starter = c(King, Suit::Clubs);
    assert_eq!(score_hand(hand.clone(), Some(starter), false).total_score, 4);
    assert_eq!(names(&score_hand(hand.clone(), Some(starter), false)), vec![CombinationName::FlushOfFour]);
    assert_eq!(score_hand(hand.clone(), Some(starter), true).total_score, 0);
    let fifth = c(King, Suit::Hearts);
    assert_eq!(score_hand(hand.clone(), Some(fifth), true).total_score, 5);
    assert_eq!(names(&score_hand(hand, Some(fifth), false)), vec![CombinationName::FlushOfFive]);
}

#[test]
fn score_is_the_same_whatever_the_suits_are_called() {
    let suits = [Suit::Clubs, Suit::Diamonds, Suit::Hearts, Suit::Spades];
    let renamed = [Suit::Spades, Suit::Hearts, Suit::Clubs, Suit::Diamonds];
    let shapes: [[(Rank, usize); 5]; 4] = [
        [(Five, 2), (Five, 0), (Five, 3), (Jack, 1), (Five, 1)],
        [(Five, 2), (Six, 0), (Seven, 2), (Jack, 2), (King, 2)],
        [(Two, 1), (Six, 1), (Eight, 1), (Queen, 1), (King, 1)],
        [(Four, 0), (Five, 1), (Five, 2), (Six, 3), (Six, 0)],
    ];
    for shape in shapes {
        for is_crib in [false, true] {
            let hand: Vec<Card> = shape[..4].iter().map(|(r, s)| c(*r, suits[*s])).collect();
            let other: Vec<Card> = shape[..4].iter().map(|(r, s)| c(*r, renamed[*s])).collect();
            let starter = c(shape[4].0, suits[shape[4].1]);
            let other_starter = c(shape[4].0, renamed[shape[4].1]);
            assert_eq!(
                score_hand(hand, Some(starter), is_crib).total_score,
                score_hand(other, Some(other_starter), is_crib).total_score
            );
        }
    }
}

#[test]
fn working_set_is_sorted_by_rank_then_suit() {
    let hand = vec![c(Six, Suit::Spades), c(Five, Suit::Hearts), c(Five, Suit::Clubs), c(Four, Suit::Hearts)];
    let score = score_hand(hand, None, false);
    // the subsets come by mask over the sorted cards: the pair of fives, the
    // fifteen and the run with the first five, then those with the second
    assert_eq!(
        names(&score),
        vec![
            CombinationName::Pair,
            CombinationName::Fifteen,
            CombinationName::RunOfThree,
            CombinationName::Fifteen,
            CombinationName::RunOfThree
        ]
    );
    assert_eq!(
        score.combinations[0].cards,
        vec![c(Five, Suit::Clubs), c(Five, Suit::Hearts)]
    );
    assert_eq!(
        score.combinations[1].cards,
        vec![c(Four, Suit::Hearts), c(Five, Suit::Clubs), c(Six, Suit::Spades)]
    );
    assert_eq!(
        score.combinations[3].cards,
        vec![c(Four, Suit::Hearts), c(Five, Suit::Hearts), c(Six, Suit::Spades)]
    );
    assert_eq!(score.total_score, 12);
}

#[test]
fn names_and_points() {
    let table = [
        (CombinationKind::Nob, 2, CombinationName::Nob, 1),
        (CombinationKind::Fifteen, 3, CombinationName::Fifteen, 2),
        (CombinationKind::RankMatch, 2, CombinationName::Pair, 2),
        (CombinationKind::RankMatch, 3, CombinationName::RoyalPair, 6),
        (CombinationKind::RankMatch, 4, CombinationName::DoubleRoyalPair, 12),
        (CombinationKind::Run, 3, CombinationName::RunOfThree, 3),
        (CombinationKind::Run, 4, CombinationName::RunOfFour, 4),
        (CombinationKind::Run, 5, CombinationName::RunOfFive, 5),
        (CombinationKind::Run, 6, CombinationName::RunOfSix, 6),
        (CombinationKind::Run, 7, CombinationName::RunOfSeven, 7),
        (CombinationKind::SuitMatch, 4, CombinationName::FlushOfFour, 4),
        (CombinationKind::SuitMatch, 5, CombinationName::FlushOfFive, 5),
        (CombinationKind::ThirtyOne, 5, CombinationName::ThirtyOne, 2),
    ];
    for (kind, count, name, points) in table {
        assert_eq!(Combination::name(kind, count), name);
        assert_eq!(Combination::points(name), points);
    }
}

#[test]
fn new_combination_fills_the_fields() {
    let pair = Combination::new(CombinationKind::RankMatch, vec![c(Nine, Suit::Clubs), c(Nine, Suit::Hearts)]);
    assert_eq!(pair.kind, CombinationKind::RankMatch);
    assert_eq!(pair.name, CombinationName::Pair);
    assert_eq!(pair.points, 2);
    assert_eq!(pair.rank_info, Nine);
    assert_eq!(pair.suit_info, Suit::Unknown);
    let flush = Combination::new(
        CombinationKind::SuitMatch,
        vec![c(Two, Suit::Spades), c(Four, Suit::Spades), c(Nine, Suit::Spades), c(King, Suit::Spades)],
    );
    assert_eq!(flush.name, CombinationName::FlushOfFour);
    assert_eq!(flush.rank_info, Rank::Unknown);
    assert_eq!(flush.suit_info, Suit::Spades);
    let copy = flush.clone();
    assert_eq!(copy.cards, flush.cards);
    assert_eq!(copy.points, 4);
}

#[test]
fn single_checks() {
    let run = vec![c(Three, Suit::Clubs), c(Four, Suit::Hearts), c(Five, Suit::Clubs)];
    assert!(score_run(run.clone()).is_some());
    assert!(score_run(run[..2].to_vec()).is_none());
    assert!(score_run(vec![c(Five, Suit::Clubs), c(Four, Suit::Hearts), c(Three, Suit::Clubs)]).is_none());
    assert!(score_run(vec![c(Three, Suit::Clubs), c(Four, Suit::Hearts), c(Six, Suit::Clubs)]).is_none());
    assert!(score_pair(vec![c(Three, Suit::Clubs), c(Three, Suit::Hearts)]).is_some());
    assert!(score_pair(vec![c(Three, Suit::Clubs)]).is_none());
    assert!(score_pair(vec![c(Three, Suit::Clubs), c(Four, Suit::Clubs)]).is_none());
    assert!(score_fifteen(vec![c(Seven, Suit::Clubs), c(Eight, Suit::Clubs)]).is_some());
    assert!(score_fifteen(vec![c(Seven, Suit::Clubs), c(Nine, Suit::Clubs)]).is_none());
    assert!(score_fifteen(vec![c(Jack, Suit::Clubs), c(Five, Suit::Clubs)]).is_some());
    assert!(score_fifteen(vec![]).is_none());
    let clubs = vec![c(Two, Suit::Clubs), c(Four, Suit::Clubs), c(Nine, Suit::Clubs), c(King, Suit::Clubs)];
    assert!(score_flush(clubs.clone(), false).is_some());
    assert!(score_flush(clubs.clone(), true).is_none());
    assert!(score_flush(clubs[..3].to_vec(), false).is_none());
    assert!(score(vec![c(Two, Suit::Clubs), c(Nine, Suit::Hearts)], false).is_none());
    let both = score(vec![c(Seven, Suit::Clubs), c(Eight, Suit::Clubs)], false).unwrap();
    assert_eq!(both.len(), 1);
    let fifteen_and_run = score(vec![c(Four, Suit::Clubs), c(Five, Suit::Clubs), c(Six, Suit::Hearts)], false).unwrap();
    assert_eq!(fifteen_and_run.len(), 2);
    assert_eq!(fifteen_and_run[0].name, CombinationName::Fifteen);
    assert_eq!(fifteen_and_run[1].name, CombinationName::RunOfThree);
}

#[test]
fn nob_score_finds_the_first_jack_of_the_suit() {
    let hand = vec![c(Jack, Suit::Clubs), c(Jack, Suit::Hearts), c(Two, Suit::Hearts), c(Jack, Suit::Spades)];
    let score = nob_score(hand.clone(), c(Nine, Suit::Hearts));
    assert_eq!(score.combinations.len(), 1);
    assert_eq!(score.combinations[0].kind, CombinationKind::Nob);
    assert_eq!(score.combinations[0].cards, vec![c(Jack, Suit::Hearts), c(Nine, Suit::Hearts)]);
    assert_eq!(score.total_score, 1);
    let none = nob_score(hand, c(Nine, Suit::Diamonds));
    assert_eq!(none.combinations.len(), 0);
    assert_eq!(none.total_score, 0);
}

fn pair_of(rank: Rank) -> Combination {
    Combination::new(CombinationKind::RankMatch, vec![c(rank, Suit::Clubs), c(rank, Suit::Hearts)])
}

fn three_of(rank: Rank) -> Combination {
    Combination::new(
        CombinationKind::RankMatch,
        vec![c(rank, Suit::Clubs), c(rank, Suit::Hearts), c(rank, Suit::Spades)],
    )
}

fn run_from(first: usize, len: usize) -> Combination {
    Combination::new(
        CombinationKind::Run,
        (first..first + len).map(|i| c(Rank::nth(i).unwrap(), Suit::Clubs)).collect(),
    )
}

#[test]
fn tally_replaces_a_smaller_rank_match() {
    let mut score = Score::new();
    score.tally(vec![pair_of(Five), pair_of(Six)]);
    assert_eq!(score.total_score, 4);
    score.tally(vec![three_of(Five)]);
    assert_eq!(names(&score), vec![CombinationName::Pair, CombinationName::RoyalPair]);
    assert_eq!(score.combinations[0].rank_info, Six);
    assert_eq!(score.total_score, 8);
    // a pair of fives has no place beside the three
    score.tally(vec![pair_of(Five)]);
    assert_eq!(score.total_score, 8);
    assert_eq!(score.clone().points(), 8);
}

#[test]
fn tally_of_the_same_rank_match_twice_counts_once() {
    let mut score = Score::new();
    score.tally(vec![three_of(Nine)]);
    score.tally(vec![three_of(Nine)]);
    assert_eq!(score.combinations.len(), 1);
    assert_eq!(score.total_score, 6);
    let flush = || {
        Combination::new(
            CombinationKind::SuitMatch,
            vec![c(Two, Suit::Spades), c(Four, Suit::Spades), c(Nine, Suit::Spades), c(King, Suit::Spades)],
        )
    };
    score.tally(vec![flush(), flush()]);
    assert_eq!(score.combinations.len(), 2);
    assert_eq!(score.total_score, 10);
}

#[test]
fn tally_keeps_runs_of_equal_length() {
    let mut score = Score::new();
    score.tally(vec![run_from(0, 3), run_from(4, 3)]);
    assert_eq!(score.total_score, 6);
    score.tally(vec![run_from(0, 4)]);
    assert_eq!(names(&score), vec![CombinationName::RunOfFour]);
    score.tally(vec![run_from(0, 3)]);
    assert_eq!(names(&score), vec![CombinationName::RunOfFour]);
    assert_eq!(score.total_score, 4);
}

#[test]
fn tally_adds_every_fifteen() {
    let fifteen = || Combination::new(CombinationKind::Fifteen, vec![c(Seven, Suit::Clubs), c(Eight, Suit::Clubs)]);
    let mut score = Score::new();
    score.tally(vec![fifteen(), fifteen(), fifteen()]);
    assert_eq!(score.total_score, 6);
    assert_eq!(score.combinations.len(), 3);
}

#[test]
fn add_combination_leaves_the_total() {
    let mut score = Score::new();
    score.add_combination(pair_of(Five));
    assert_eq!(score.combinations.len(), 1);
    assert_eq!(score.total_score, 0);
    assert_eq!(score.points(), 2);
}

#[test]
fn run_needs_cards_with_a_rank() {
    let cards = vec![c(Queen, Suit::Clubs), c(King, Suit::Hearts), c(Rank::Unknown, Suit::Clubs)];
    assert!(score_run(cards).is_none());
    assert!(score_run(vec![c(Jack, Suit::Clubs), c(Queen, Suit::Clubs), c(King, Suit::Hearts)]).is_some());
}

#[test]
fn default_score_is_empty() {
    let score = Score::default();
    assert_eq!(score.combinations.len(), 0);
    assert_eq!(score.total_score, 0);
}

#[test]
fn tally_hands_the_score_back() {
    let mut score = Score::new();
    let total = score.tally(vec![pair_of(Five)]).tally(vec![pair_of(Six)]).total_score;
    assert_eq!(total, 4);
    assert_eq!(score.combinations.len(), 2);
}
