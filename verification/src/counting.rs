//! Scoring of the play (counting) phase: what the card just played scores,
//! given the cards that were played before it in this count.

use crate::cards::{Card, Rank};
use crate::cribbage_errors::{CribbageError, CribbageErrorKind};
use crate::scoring::{
    lemma_total_bound, score_run, spec_bounded, spec_found, spec_is_run, spec_new, spec_total,
    spec_views, total_points, Combination, CombinationKind, CombinationView, Score,
};
use crate::sorting::{
    count_up_to, lemma_count_nonnegative, lemma_count_prefix, lemma_count_sorted,
    lemma_count_tail, sort_cards, spec_count, spec_sort,
};
use vstd::prelude::*;
use vstd::slice::slice_to_vec;
use vstd::string::*;

verus! {

/// The count once `card` is played after `played`.
pub open spec fn spec_count_with(played: Seq<Card>, card: Card) -> int {
    spec_count(played) + card.spec_value()
}

/// How many of the last cards of `played` have the rank `rank`, one after
/// the other without a gap, looking at no more than `most` of them.
pub open spec fn spec_trailing_matches(played: Seq<Card>, rank: Rank, most: nat) -> nat
    decreases most,
{
    if most == 0 || played.len() == 0 || played.last().rank != rank {
        0
    } else {
        1 + spec_trailing_matches(played.drop_last(), rank, (most - 1) as nat)
    }
}

/// Whether the cards from place `from` on, three or more, form a run once
/// they are sorted.
pub open spec fn spec_run_from(all: Seq<Card>, from: int) -> bool {
    0 <= from && from + 3 <= all.len() && spec_is_run(spec_sort(all.subrange(from, all.len() as int)))
}

/// The first place at or after `from` from which the cards to the end form a
/// run: the start of the longest run that ends with the last card.
pub open spec fn spec_first_run(all: Seq<Card>, from: int) -> Option<int>
    decreases all.len() - from,
{
    if from < 0 || from + 3 > all.len() {
        None
    } else if spec_run_from(all, from) {
        Some(from)
    } else {
        spec_first_run(all, from + 1)
    }
}

/// The combinations that `card` scores when it is played after `played`:
/// a fifteen or a thirty-one for the count; a rank match with the cards of
/// its rank that were played just before it; the longest run that the last
/// cards form, in any order.
pub open spec fn spec_counting_score(played: Seq<Card>, card: Card) -> Seq<CombinationView> {
    let all = played.push(card);
    let count = spec_count_with(played, card);
    let matches = spec_trailing_matches(played, card.rank, 3);
    spec_found(count == 15, CombinationKind::Fifteen, all) + spec_found(
        count == 31,
        CombinationKind::ThirtyOne,
        all,
    ) + spec_found(
        matches > 0,
        CombinationKind::RankMatch,
        all.subrange(played.len() - matches, all.len() as int),
    ) + match spec_first_run(all, 0) {
        Some(from) => seq![
            spec_new(CombinationKind::Run, spec_sort(all.subrange(from, all.len() as int))),
        ],
        None => Seq::empty(),
    }
}

/// A run of eight or more cards counts more than 31.
pub proof fn lemma_long_run_count(cards: Seq<Card>)
    requires
        spec_is_run(cards),
        cards.len() >= 8,
    ensures
        spec_count(cards) > 31,
{
    let first = cards.take(8);
    lemma_count_prefix(cards, 8);
    assert(first[0] == cards[0] && first[1] == cards[1] && first[2] == cards[2] && first[3]
        == cards[3] && first[4] == cards[4] && first[5] == cards[5] && first[6] == cards[6]
        && first[7] == cards[7]);
    let a7 = first.drop_last();
    let a6 = a7.drop_last();
    let a5 = a6.drop_last();
    let a4 = a5.drop_last();
    let a3 = a4.drop_last();
    let a2 = a3.drop_last();
    let a1 = a2.drop_last();
    let a0 = a1.drop_last();
    assert(a0.len() == 0);
    assert(spec_count(a0) == 0);
    assert(spec_count(a1) == cards[0].spec_value());
    assert(spec_count(a2) == spec_count(a1) + cards[1].spec_value());
    assert(spec_count(a3) == spec_count(a2) + cards[2].spec_value());
    assert(spec_count(a4) == spec_count(a3) + cards[3].spec_value());
    assert(spec_count(a5) == spec_count(a4) + cards[4].spec_value());
    assert(spec_count(a6) == spec_count(a5) + cards[5].spec_value());
    assert(spec_count(a7) == spec_count(a6) + cards[6].spec_value());
    assert(spec_count(first) == spec_count(a7) + cards[7].spec_value());
    let r = cards[0].rank.spec_ordinal();
    assert(cards[7].rank.spec_ordinal() == r + 7);
    assert(cards[6].rank.spec_ordinal() == r + 6);
    assert(cards[5].rank.spec_ordinal() == r + 5);
    assert(cards[4].rank.spec_ordinal() == r + 4);
    assert(cards[3].rank.spec_ordinal() == r + 3);
    assert(cards[2].rank.spec_ordinal() == r + 2);
    assert(cards[1].rank.spec_ordinal() == r + 1);
}

/// The cards of `cards` from place `from` to the end.
pub fn tail_from(cards: &Vec<Card>, from: usize) -> (tail: Vec<Card>)
    requires
        from <= cards@.len(),
    ensures
        tail@ == cards@.subrange(from as int, cards@.len() as int),
{
    let n = cards.len();
    let mut tail: Vec<Card> = Vec::new();
    let mut i: usize = from;
    while i < n
        invariant
            from <= i <= n,
            n == cards@.len(),
            tail@ == cards@.subrange(from as int, i as int),
        decreases n - i,
    {
        tail.push(cards[i]);
        proof {
            assert(cards@.subrange(from as int, i as int).push(cards@[i as int]) =~= cards@.subrange(
                from as int,
                i + 1,
            ));
        }
        i += 1;
    }
    tail
}

/// How many of the last cards of `played`, at most three, have the rank of
/// `card`, one after the other without a gap.
pub fn trailing_matches(played: &[Card], card: Card) -> (matches: usize)
    ensures
        matches == spec_trailing_matches(played@, card.rank, 3),
        matches <= 3,
        matches <= played@.len(),
{
    let len = played.len();
    let mut matches: usize = 0;
    proof {
        assert(played@.take(len as int) =~= played@);
    }
    while matches < 3 && matches < len && played[len - 1 - matches].rank == card.rank
        invariant
            matches <= 3,
            matches <= len,
            len == played@.len(),
            spec_trailing_matches(played@, card.rank, 3) == matches + spec_trailing_matches(
                played@.take(len - matches),
                card.rank,
                (3 - matches) as nat,
            ),
        decreases 3 - matches,
    {
        proof {
            let rest = played@.take(len - matches);
            assert(rest.last() == played@[len - 1 - matches]);
            assert(rest.drop_last() =~= played@.take(len - matches - 1));
        }
        matches += 1;
    }
    proof {
        let rest = played@.take(len - matches);
        if matches < 3 && matches < len {
            assert(rest.last() == played@[len - 1 - matches]);
        }
    }
    matches
}

/// The longest run that the last cards of `all` form, in any order: the
/// cards from the first place from which they make a run to the end, sorted.
pub fn longest_run(all: &Vec<Card>) -> (found: Option<Combination>)
    requires
        spec_count(all@) <= 31,
    ensures
        match found {
            Some(run) => match spec_first_run(all@, 0) {
                Some(from) => run@ == spec_new(
                    CombinationKind::Run,
                    spec_sort(all@.subrange(from, all@.len() as int)),
                ),
                None => false,
            },
            None => spec_first_run(all@, 0) is None,
        },
{
    let len = all.len();
    if len < 3 {
        return None;
    }
    let mut i: usize = 0;
    while i <= len - 3
        invariant
            len == all@.len(),
            3 <= len,
            i <= len - 2,
            spec_count(all@) <= 31,
            spec_first_run(all@, 0) == spec_first_run(all@, i as int),
        decreases len - i,
    {
        let mut window = tail_from(all, i);
        let ghost unsorted = window@;
        sort_cards(&mut window);
        proof {
            lemma_count_sorted(unsorted);
            lemma_count_tail(all@, i as int);
            if spec_is_run(window@) && window@.len() >= 8 {
                lemma_long_run_count(window@);
            }
        }
        if let Some(run) = score_run(window) {
            return Some(run);
        }
        i += 1;
    }
    None
}

/// Calculates the score of the counting phase for `card`, played after
/// `played_cards`. A card that would bring the count above 31 may not be
/// played: it gives an error and no score.
pub fn score_counting_cards_played(played_cards: &[Card], card: Card) -> (result: Result<
    Score,
    CribbageError,
>)
    ensures
        match result {
            Ok(score) => {
                &&& spec_count_with(played_cards@, card) <= 31
                &&& score@ == spec_counting_score(played_cards@, card)
                &&& score.total_score == spec_total(score@)
            },
            Err(e) => {
                &&& spec_count_with(played_cards@, card) > 31
                &&& e.error_kind == CribbageErrorKind::BadCount
                &&& e.message@ == "invalid card + count > 31"@
            },
        },
{
    proof {
        lemma_count_nonnegative(played_cards@);
    }
    let count: i32 = count_up_to(played_cards, 31) + card.value();
    if count > 31 {
        return Err(
            CribbageError::new(
                CribbageErrorKind::BadCount,
                String::from_str("invalid card + count > 31"),
            ),
        );
    }
    let mut all_cards: Vec<Card> = slice_to_vec(played_cards);
    all_cards.push(card);
    let ghost all = played_cards@.push(card);
    proof {
        assert(all.drop_last() =~= played_cards@);
    }
    let mut found: Vec<Combination> = Vec::new();
    assert(spec_views(found@) =~= Seq::<CombinationView>::empty());
    if count == 15 {
        let c = Combination::new(CombinationKind::Fifteen, all_cards.clone());
        proof {
            assert(spec_views(found@.push(c)) =~= spec_views(found@).push(c@));
        }
        found.push(c);
    } else if count == 31 {
        let c = Combination::new(CombinationKind::ThirtyOne, all_cards.clone());
        proof {
            assert(spec_views(found@.push(c)) =~= spec_views(found@).push(c@));
        }
        found.push(c);
    }
    let ghost for_count = spec_views(found@);
    assert(for_count =~= spec_found(count == 15, CombinationKind::Fifteen, all) + spec_found(
        count == 31,
        CombinationKind::ThirtyOne,
        all,
    ));
    let matches = trailing_matches(played_cards, card);
    if matches > 0 {
        let same = tail_from(&all_cards, played_cards.len() - matches);
        let c = Combination::new(CombinationKind::RankMatch, same);
        proof {
            assert(spec_views(found@.push(c)) =~= spec_views(found@).push(c@));
        }
        found.push(c);
    }
    let ghost for_rank = spec_views(found@);
    assert(for_rank =~= for_count + spec_found(
        matches > 0,
        CombinationKind::RankMatch,
        all.subrange(played_cards@.len() - matches, all.len() as int),
    ));
    if let Some(run) = longest_run(&all_cards) {
        proof {
            assert(spec_views(found@.push(run)) =~= spec_views(found@).push(run@));
        }
        found.push(run);
    }
    proof {
        let views = spec_views(found@);
        assert(views =~= spec_counting_score(played_cards@, card));
        assert(spec_bounded(views));
        lemma_total_bound(views);
    }
    let total_score = total_points(&found);
    Ok(Score { combinations: found, total_score })
}

} // verus!
