//! The card that is picked in the counting phase is a legal play: a card of
//! the hand that keeps the count at or below 31. A Go is called only where
//! the hand holds no such card.

use crate::cards::Card;
use crate::combinator::{lemma_combinations, spec_combinations};
use crate::counting::spec_count_with;
use crate::select_cards::{
    lemma_playable_count, spec_best_play, spec_next_counted_card, spec_playable, spec_weigh_pair,
    spec_weigh_pairs,
};
use crate::sorting::{lemma_same_cards_contains, lemma_sort_ensures, spec_count, spec_sort};
use vstd::prelude::*;

verus! {

/// The first card that scores most is one of the cards.
pub proof fn lemma_best_play_in_range(played: Seq<Card>, cards: Seq<Card>)
    requires
        cards.len() >= 1,
    ensures
        0 <= spec_best_play(played, cards) < cards.len(),
    decreases cards.len(),
{
    if cards.len() > 1 {
        lemma_best_play_in_range(played, cards.drop_last());
    }
}

/// A card that may be played is among the playable cards.
pub proof fn lemma_playable_holds(played: Seq<Card>, cards: Seq<Card>, i: int)
    requires
        0 <= i < cards.len(),
        spec_count_with(played, cards[i]) <= 31,
    ensures
        spec_playable(played, cards).contains(cards[i]),
    decreases cards.len(),
{
    let playable = spec_playable(played, cards);
    if i == cards.len() - 1 {
        assert(playable[playable.len() - 1] == cards[i]);
    } else {
        lemma_playable_holds(played, cards.drop_last(), i);
        let before = spec_playable(played, cards.drop_last());
        let k = choose|k: int| 0 <= k < before.len() && before[k] == cards.drop_last()[i];
        assert(playable[k] == cards[i]);
    }
}

/// Whether `card` is a card of one of `pairs`.
pub open spec fn spec_in_pairs(pairs: Seq<Seq<Card>>, card: Card) -> bool {
    exists|k: int| 0 <= k < pairs.len() && (#[trigger] pairs[k]).contains(card)
}

/// The card that the plans choose, where they choose one, is a card of one
/// of the pairs.
pub proof fn lemma_weigh_pairs_card(pairs: Seq<Seq<Card>>, count: int)
    requires
        forall|k: int| 0 <= k < pairs.len() ==> (#[trigger] pairs[k]).len() == 2,
    ensures
        spec_weigh_pairs(pairs, count).0 >= 0,
        spec_weigh_pairs(pairs, count).0 > 0 ==> spec_in_pairs(
            pairs,
            spec_weigh_pairs(pairs, count).1,
        ),
    decreases pairs.len(),
{
    if pairs.len() > 0 {
        let before = pairs.drop_last();
        assert forall|k: int| 0 <= k < before.len() implies (#[trigger] before[k]).len() == 2 by {
            assert(before[k] == pairs[k]);
        }
        lemma_weigh_pairs_card(before, count);
        let earlier = spec_weigh_pairs(before, count);
        let last = pairs[pairs.len() - 1];
        assert(last == pairs.last());
        let pair = spec_sort(last);
        lemma_sort_ensures(last);
        let now = spec_weigh_pair(earlier.0, earlier.1, pair, count);
        assert(now == spec_weigh_pairs(pairs, count));
        if now.0 > 0 {
            if now.1 == pair[0] || now.1 == pair[1] {
                assert(pair.contains(now.1));
                lemma_same_cards_contains(pair, last, now.1);
                assert(pairs[pairs.len() - 1].contains(now.1));
            } else {
                assert(now.1 == earlier.1 && earlier.0 > 0);
                let k = choose|k: int| 0 <= k < before.len() && (#[trigger] before[k]).contains(
                    earlier.1,
                );
                assert(before[k] == pairs[k]);
                assert(pairs[k].contains(now.1));
            }
        }
    }
}

/// The card that is picked is a card of the hand that may be played, and a
/// Go is called only where no card of the hand may be played.
pub proof fn lemma_next_card_is_legal(played: Seq<Card>, available: Seq<Card>)
    ensures
        match spec_next_counted_card(played, available) {
            Some(card) => available.contains(card) && spec_count_with(played, card) <= 31,
            None => forall|i: int|
                0 <= i < available.len() ==> spec_count_with(played, #[trigger] available[i])
                    > 31,
        },
{
    let count = spec_count(played);
    if available.len() == 1 {
        assert(available.contains(available[0]));
    } else {
        let sorted = spec_sort(available);
        lemma_sort_ensures(available);
        let playable = spec_playable(played, sorted);
        assert forall|k: int| 0 <= k < playable.len() implies available.contains(
            #[trigger] playable[k],
        ) && spec_count_with(played, playable[k]) <= 31 by {
            lemma_playable_count(played, sorted, k);
            lemma_same_cards_contains(sorted, available, playable[k]);
        }
        if playable.len() == 0 {
            assert forall|i: int| 0 <= i < available.len() implies spec_count_with(
                played,
                #[trigger] available[i],
            ) > 31 by {
                assert(available.contains(available[i]));
                lemma_same_cards_contains(available, sorted, available[i]);
                let j = choose|j: int| 0 <= j < sorted.len() && sorted[j] == available[i];
                if spec_count_with(played, sorted[j]) <= 31 {
                    lemma_playable_holds(played, sorted, j);
                }
            }
        } else if playable.len() > 1 {
            lemma_best_play_in_range(played, playable);
            let pairs = spec_combinations(playable, 2, 2);
            assert forall|k: int| 0 <= k < pairs.len() implies (#[trigger] pairs[k]).len() == 2 by {
                lemma_combinations(playable, 2, 2, k);
            }
            lemma_weigh_pairs_card(pairs, count);
            let chosen = spec_weigh_pairs(pairs, count);
            if chosen.0 > 0 {
                let k = choose|k: int| 0 <= k < pairs.len() && (#[trigger] pairs[k]).contains(
                    chosen.1,
                );
                lemma_combinations(playable, 2, 2, k);
                let j = choose|j: int| 0 <= j < pairs[k].len() && pairs[k][j] == chosen.1;
                assert(playable.contains(pairs[k][j]));
                let p = choose|p: int| 0 <= p < playable.len() && playable[p] == chosen.1;
                assert(available.contains(playable[p]));
            }
            assert(available.contains(playable[playable.len() - 1]));
            assert(available.contains(playable[playable.len() - 2]));
        }
    }
}

} // verus!
